use vstd::prelude::*;

use std::rc::Rc;

verus! {

use crate::table::Table;

/// Relies on Rc::clone: returns a second handle to the same shared buffer.
#[verifier::external_body]
fn rc_clone(r: &Rc<Vec<u8>>) -> (res: Rc<Vec<u8>>)
    ensures
        res == *r,
{
    Rc::clone(r)
}

/// Relies on Rc's Deref: borrows the shared buffer.
#[verifier::external_body]
fn rc_borrow(r: &Rc<Vec<u8>>) -> (res: &Vec<u8>)
    ensures
        *res == **r,
{
    &**r
}

/// A cheaply cloneable handle over an immutable byte buffer. Response bodies
/// and chunk contents are carried as such handles so that serving a chunk
/// never copies it.
pub struct RcBytes {
    pub data: Rc<Vec<u8>>,
}

impl View for RcBytes {
    type V = Seq<u8>;

    open spec fn view(&self) -> Seq<u8> {
        self.data@
    }
}

impl RcBytes {
    pub fn from_vec(v: Vec<u8>) -> (r: RcBytes)
        ensures
            r@ == v@,
    {
        RcBytes { data: Rc::new(v) }
    }

    pub fn len(&self) -> (n: usize)
        ensures
            n == self@.len(),
    {
        rc_borrow(&self.data).len()
    }

    /// A second handle to the same bytes; the buffer itself is shared.
    pub fn clone_ref(&self) -> (r: RcBytes)
        ensures
            r@ == self@,
    {
        RcBytes { data: rc_clone(&self.data) }
    }

    pub fn bytes(&self) -> (b: &Vec<u8>)
        ensures
            b@ == self@,
    {
        rc_borrow(&self.data)
    }
}

/// Every failure the store can signal; each carries the exact text the host
/// would print when trapping.
#[derive(Clone, Copy, Debug, PartialEq, Eq, Structural)]
pub enum Error {
    AssetNotFound,
    NoIdentityEncoding,
    AssetTooLarge,
    NoSuchEncoding,
    BatchNotFound,
    ChunkNotFound,
    AssetNotFoundInChunksMap,
    EncodingMustHaveChunk,
    ChunkIndexOutOfBounds,
    ContentTypeMismatch,
    Sha256Mismatch,
    InvalidSha256,
    MergeInconsistentHashes,
    MergeInconsistentLabels,
    MergeInconsistentLeaves,
    MergeInconsistentStructure,
    NotAuthorized,
    NoDataCertificate,
    InvalidTokenKey,
    InvalidTokenEncoding,
}

impl Error {
    /// The text the host prints when this failure traps.
    pub fn message(&self) -> (r: String)
        ensures
            r@ == self.spec_message(),
    {
        match self {
            Error::AssetNotFound => "asset not found".to_owned(),
            Error::NoIdentityEncoding => "no identity encoding".to_owned(),
            Error::AssetTooLarge => "Asset too large. Use get() and get_chunk() instead.".to_owned(),
            Error::NoSuchEncoding => "no such encoding".to_owned(),
            Error::BatchNotFound => "batch not found".to_owned(),
            Error::ChunkNotFound => "chunk not found".to_owned(),
            Error::AssetNotFoundInChunksMap => "asset not found in chunks map".to_owned(),
            Error::EncodingMustHaveChunk => "encoding must have at least one chunk".to_owned(),
            Error::ChunkIndexOutOfBounds => "chunk index out of bounds".to_owned(),
            Error::ContentTypeMismatch => "create_asset: content type mismatch".to_owned(),
            Error::Sha256Mismatch => "sha256 mismatch".to_owned(),
            Error::InvalidSha256 => "invalid SHA-256".to_owned(),
            Error::MergeInconsistentHashes => "merge_hash_trees: inconsistent hashes".to_owned(),
            Error::MergeInconsistentLabels => "merge_hash_trees: inconsistent hash tree labels".to_owned(),
            Error::MergeInconsistentLeaves => "merge_hash_trees: inconsistent leaves".to_owned(),
            Error::MergeInconsistentStructure => "merge_hash_trees: inconsistent tree structure".to_owned(),
            Error::NotAuthorized => "Caller is not authorized".to_owned(),
            Error::NoDataCertificate => "no data certificate available".to_owned(),
            Error::InvalidTokenKey => "Invalid token on streaming: key not found.".to_owned(),
            Error::InvalidTokenEncoding => "Invalid token on streaming: encoding not found.".to_owned(),
        }
    }

    pub open spec fn spec_message(&self) -> Seq<char> {
        match self {
            Error::AssetNotFound => "asset not found"@,
            Error::NoIdentityEncoding => "no identity encoding"@,
            Error::AssetTooLarge => "Asset too large. Use get() and get_chunk() instead."@,
            Error::NoSuchEncoding => "no such encoding"@,
            Error::BatchNotFound => "batch not found"@,
            Error::ChunkNotFound => "chunk not found"@,
            Error::AssetNotFoundInChunksMap => "asset not found in chunks map"@,
            Error::EncodingMustHaveChunk => "encoding must have at least one chunk"@,
            Error::ChunkIndexOutOfBounds => "chunk index out of bounds"@,
            Error::ContentTypeMismatch => "create_asset: content type mismatch"@,
            Error::Sha256Mismatch => "sha256 mismatch"@,
            Error::InvalidSha256 => "invalid SHA-256"@,
            Error::MergeInconsistentHashes => "merge_hash_trees: inconsistent hashes"@,
            Error::MergeInconsistentLabels => "merge_hash_trees: inconsistent hash tree labels"@,
            Error::MergeInconsistentLeaves => "merge_hash_trees: inconsistent leaves"@,
            Error::MergeInconsistentStructure => "merge_hash_trees: inconsistent tree structure"@,
            Error::NotAuthorized => "Caller is not authorized"@,
            Error::NoDataCertificate => "no data certificate available"@,
            Error::InvalidTokenKey => "Invalid token on streaming: key not found."@,
            Error::InvalidTokenEncoding => "Invalid token on streaming: encoding not found."@,
        }
    }
}

/// One immutable segment of an assembled encoding.
pub struct ContentChunk {
    pub content: RcBytes,
    pub start_byte: u64,
    pub end_byte: u64,
    pub sha256: Vec<u8>,
}

/// One content representation of an asset: an ordered chunk list, its total
/// length, a modification time in nanoseconds, a certification flag and a
/// 32-byte digest.
pub struct AssetEncoding {
    pub modified: u64,
    pub content_chunks: Vec<ContentChunk>,
    pub total_length: u64,
    pub certified: bool,
    pub sha256: Vec<u8>,
}

/// A named addressable resource: a content type and its encodings by name.
pub struct Asset {
    pub content_type: String,
    pub encodings: Table<AssetEncoding>,
}

/// Pre-commit staged content, owned by a batch.
pub struct Chunk {
    pub batch_id: u64,
    pub content: RcBytes,
    pub sha256: Vec<u8>,
}

/// A transient upload context; expires when not touched before `expires_at`.
pub struct Batch {
    pub expires_at: u64,
}

pub struct CreateAssetArguments {
    pub key: String,
    pub content_type: String,
}

pub struct SetAssetContentArguments {
    pub key: String,
    pub content_encoding: String,
    pub chunk_ids: Vec<u64>,
    pub sha256: Option<Vec<u8>>,
}

pub struct UnsetAssetContentArguments {
    pub key: String,
    pub content_encoding: String,
}

pub struct DeleteAssetArguments {
    pub key: String,
}

pub struct ClearArguments {}

pub enum BatchOperation {
    CreateAsset(CreateAssetArguments),
    SetAssetContent(SetAssetContentArguments),
    UnsetAssetContent(UnsetAssetContentArguments),
    DeleteAsset(DeleteAssetArguments),
    Clear(ClearArguments),
}

pub struct CommitBatchArguments {
    pub batch_id: u64,
    pub operations: Vec<BatchOperation>,
}

pub struct StoreArg {
    pub key: String,
    pub content_type: String,
    pub content_encoding: String,
    pub content: Vec<u8>,
    pub sha256: Option<Vec<u8>>,
}

pub struct GetArg {
    pub key: String,
    pub accept_encodings: Vec<String>,
}

pub struct GetChunksInfoArg {
    pub key: String,
    pub content_encoding: String,
}

pub struct GetChunkArg {
    pub key: String,
    pub content_encoding: String,
    pub index: u64,
    pub sha256: Option<Vec<u8>>,
}

pub struct GetChunkResponse {
    pub content: RcBytes,
}

pub struct CreateBatchResponse {
    pub batch_id: u64,
}

pub struct CreateChunkArg {
    pub batch_id: u64,
    pub content: Vec<u8>,
    pub sha256: Option<Vec<u8>>,
}

pub struct CreateChunkResponse {
    pub chunk_id: u64,
}

pub struct ChunkInfo {
    pub chunk_id: u64,
    pub chunk_length: u64,
}

pub struct ChunksInfoResponse {
    pub total_length: u64,
    pub chunks: Vec<ChunkInfo>,
}

pub struct EncodedAsset {
    pub content: RcBytes,
    pub content_type: String,
    pub content_encoding: String,
    pub total_length: u64,
    pub sha256: Option<Vec<u8>>,
}

pub struct AssetEncodingDetails {
    pub content_encoding: String,
    pub sha256: Option<Vec<u8>>,
    pub length: u64,
    pub modified: u64,
}

pub struct AssetDetails {
    pub key: String,
    pub content_type: String,
    pub encodings: Vec<AssetEncodingDetails>,
}

pub struct HttpRequest {
    pub method: String,
    pub url: String,
    pub headers: Vec<(String, String)>,
    pub body: Vec<u8>,
}

pub struct HttpResponse {
    pub status_code: u16,
    pub headers: Vec<(String, String)>,
    pub body: RcBytes,
    pub streaming_strategy: Option<StreamingStrategy>,
}

pub struct StreamingCallbackToken {
    pub key: String,
    pub content_encoding: String,
    pub index: u64,
    pub sha256: Option<Vec<u8>>,
}

/// A host-level reference to a method on a canister, used as the streaming
/// callback target.
pub struct CallbackFunc {
    pub principal: Vec<u8>,
    pub method: String,
}

pub enum StreamingStrategy {
    Callback { callback: CallbackFunc, token: StreamingCallbackToken },
}

pub struct StreamingCallbackHttpResponse {
    pub body: RcBytes,
    pub token: Option<StreamingCallbackToken>,
    pub chunk_tree: String,
}

/// What survives an upgrade: the allowlist and the asset table.
pub struct StableState {
    pub authorized: Vec<Vec<u8>>,
    pub stable_assets: Table<Asset>,
}

} // verus!
