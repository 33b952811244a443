use vstd::prelude::*;

verus! {

use crate::ext::{dec_str, u64_to_string};
use crate::table::{bytes_eq, str_eq, IdTable, Table};
use crate::tree::{
    hash_bytes, labeled_hash32, labeled_hash_of, rb_delete, rb_get, rb_insert, rb_new, rb_root,
    rb_root_hash, rb_view, RbMap,
};
use crate::types::{
    Asset, AssetDetails, AssetEncoding, AssetEncodingDetails, Batch, BatchOperation, Chunk,
    ChunkInfo, ChunksInfoResponse, CommitBatchArguments, ContentChunk, CreateAssetArguments,
    CreateBatchResponse, CreateChunkArg, CreateChunkResponse, DeleteAssetArguments, EncodedAsset,
    Error, GetArg, GetChunkArg, GetChunkResponse, GetChunksInfoArg, RcBytes,
    SetAssetContentArguments, StableState, StoreArg, UnsetAssetContentArguments,
};
use vstd::string::StringSliceAdditionalSpecFns;
use vstd::string::StringExecFns;

/// How long a batch stays alive after it was last touched, in nanoseconds.
pub const BATCH_EXPIRY_NANOS: u64 = 300_000_000_000;

/// The fixed order in which encodings are picked for certification.
pub open spec fn encoding_priority() -> Seq<Seq<char>> {
    seq!["identity"@, "gzip"@, "compress"@, "deflate"@, "br"@]
}

/// The label under which the asset tree's root is published.
pub open spec fn tree_label() -> Seq<u8> {
    "http_assets".spec_bytes()
}

/// The whole store: asset table, staged upload state, the two Merkle tree
/// families, the allowlist, and the root digest as published to the host.
pub struct State {
    pub assets: Table<Asset>,
    pub chunks: IdTable<Chunk>,
    pub next_chunk_id: u64,
    pub batches: IdTable<Batch>,
    pub next_batch_id: u64,
    pub authorized: Vec<Vec<u8>>,
    pub asset_hashes: RbMap,
    pub chunk_hashes: Table<RbMap>,
    pub certified_data: Vec<u8>,
}

/// The length of the first `i` chunks together.
pub open spec fn prefix_len(chunks: Seq<ContentChunk>, i: int) -> nat
    decreases i,
{
    if i <= 0 {
        0
    } else {
        (prefix_len(chunks, i - 1) + chunks[i - 1].content@.len()) as nat
    }
}

/// Chunk `i` sits directly after its predecessors and is labeled with its
/// exact byte range.
pub open spec fn chunk_at_ok(chunks: Seq<ContentChunk>, i: int) -> bool {
    chunks[i].content@.len() >= 1 && chunks[i].start_byte as nat == prefix_len(chunks, i)
        && chunks[i].end_byte as nat == prefix_len(chunks, i) + chunks[i].content@.len() - 1
        && chunks[i].sha256@.len() == 32
}

/// An encoding is a non-empty chunk list whose ranges tile its total length.
pub open spec fn enc_layout_ok(e: AssetEncoding) -> bool {
    e.content_chunks@.len() >= 1 && e.sha256@.len() == 32 && prefix_len(
        e.content_chunks@,
        e.content_chunks@.len() as int,
    ) <= u64::MAX && e.total_length as nat == prefix_len(
        e.content_chunks@,
        e.content_chunks@.len() as int,
    ) && (forall|i: int| 0 <= i < e.content_chunks@.len() ==> chunk_at_ok(e.content_chunks@, i))
}

/// The first name of the priority list, from position `i` on, that the
/// encoding map holds.
pub open spec fn first_priority_present(encs: Map<Seq<char>, AssetEncoding>, i: int) -> Option<
    Seq<char>,
>
    decreases encoding_priority().len() - i,
{
    if i < 0 || i >= encoding_priority().len() {
        None
    } else if encs.contains_key(encoding_priority()[i]) {
        Some(encoding_priority()[i])
    } else {
        first_priority_present(encs, i + 1)
    }
}

pub open spec fn no_encodings(encs: Map<Seq<char>, AssetEncoding>) -> bool {
    forall|e: Seq<char>| !encs.contains_key(e)
}

/// What certification keeps true of one asset: chunk layouts are exact, at
/// most one encoding is certified and it is the highest-priority one present,
/// and the asset-hash tree holds the asset's key exactly when one is, mapped
/// to that encoding's digest.
pub open spec fn asset_ok(
    a: Asset,
    k: Seq<char>,
    h: Map<Seq<char>, Seq<u8>>,
    has_chunk_tree: bool,
) -> bool {
    let encs = a.encodings@;
    &&& a.encodings.wf()
    &&& (forall|e: Seq<char>| #[trigger] encs.contains_key(e) ==> enc_layout_ok(encs[e]))
    &&& (forall|e1: Seq<char>, e2: Seq<char>|
        #![trigger encs[e1].certified, encs[e2].certified]
        encs.contains_key(e1) && encs.contains_key(e2) && encs[e1].certified && encs[e2].certified
            ==> e1 == e2)
    &&& (h.contains_key(k) <==> (exists|e: Seq<char>|
        #![auto]
        encs.contains_key(e) && encs[e].certified))
    &&& (forall|e: Seq<char>|
        encs.contains_key(e) && #[trigger] encs[e].certified ==> h[k] == encs[e].sha256@)
    &&& (forall|e: Seq<char>|
        encs.contains_key(e) && #[trigger] encs[e].certified ==> (match first_priority_present(
            encs,
            0,
        ) {
            Some(p) => e == p,
            None => true,
        }))
    &&& (no_encodings(encs) ==> (!h.contains_key(k) && !has_chunk_tree))
}

impl State {
    /// The invariant every operation preserves: the tables are well formed,
    /// every asset satisfies the certification discipline, both trees only
    /// mention live assets, staged chunks carry 32-byte digests, and the
    /// published digest matches the asset tree's root.
    pub open spec fn inv(self) -> bool {
        &&& self.assets.wf()
        &&& self.chunks.wf()
        &&& self.batches.wf()
        &&& self.chunk_hashes.wf()
        &&& (forall|k: Seq<char>| #[trigger]
            self.assets@.contains_key(k) ==> asset_ok(
                self.assets@[k],
                k,
                rb_view(self.asset_hashes),
                self.chunk_hashes@.contains_key(k),
            ))
        &&& (forall|k: Seq<char>| #[trigger]
            rb_view(self.asset_hashes).contains_key(k) ==> self.assets@.contains_key(k))
        &&& (forall|k: Seq<char>| #[trigger]
            self.chunk_hashes@.contains_key(k) ==> self.assets@.contains_key(k))
        &&& (forall|id: u64| #[trigger]
            self.chunks@.contains_key(id) ==> self.chunks@[id].sha256@.len() == 32)
        &&& (forall|id: u64| #[trigger] self.batches@.contains_key(id) ==> id < self.next_batch_id)
        &&& (forall|id: u64| #[trigger] self.chunks@.contains_key(id) ==> self.chunks@[id].batch_id
            < self.next_batch_id && id < self.next_chunk_id)
        &&& self.certified_data@ == labeled_hash_of(tree_label(), rb_root(self.asset_hashes))
    }

    /// A caller is authorized when its principal is on the allowlist.
    pub open spec fn spec_authorized(self, caller: Seq<u8>) -> bool {
        exists|i: int| 0 <= i < self.authorized@.len() && self.authorized@[i]@ == caller
    }

    /// A fresh store: nothing held, counters at one, the empty root published.
    pub fn new() -> (st: State)
        ensures
            st.inv(),
            st.assets@ == Map::<Seq<char>, Asset>::empty(),
            st.chunks@ == Map::<u64, Chunk>::empty(),
            st.batches@ == Map::<u64, Batch>::empty(),
            st.next_batch_id == 1u64,
            st.next_chunk_id == 1u64,
            st.authorized@.len() == 0,
            rb_view(st.asset_hashes) == crate::tree::rb_empty_view(),
            st.chunk_hashes@ == Map::<Seq<char>, RbMap>::empty(),
    {
        let tree = rb_new();
        let root = rb_root_hash(&tree);
        let cert = labeled_hash32("http_assets".as_bytes(), &root);
        State {
            assets: Table::new(),
            chunks: IdTable::new(),
            next_chunk_id: 1,
            batches: IdTable::new(),
            next_batch_id: 1,
            authorized: Vec::new(),
            asset_hashes: tree,
            chunk_hashes: Table::new(),
            certified_data: cert,
        }
    }
}

/// Rejects callers that are not on the allowlist.
pub fn is_authorized(st: &State, caller: &Vec<u8>) -> (r: Result<(), Error>)
    ensures
        (match r {
            Ok(()) => st.spec_authorized(caller@),
            Err(e) => !st.spec_authorized(caller@) && e == Error::NotAuthorized,
        }),
{
    let mut i: usize = 0;
    while i < st.authorized.len()
        invariant
            i <= st.authorized@.len(),
            forall|j: int| 0 <= j < i ==> st.authorized@[j]@ != caller@,
        decreases st.authorized@.len() - i,
    {
        if bytes_eq(st.authorized[i].as_slice(), caller.as_slice()) {
            return Ok(());
        }
        i = i + 1;
    }
    Err(Error::NotAuthorized)
}

/// Extends the allowlist; only a caller already on it may do so.
pub fn authorize(st: &mut State, caller: &Vec<u8>, other: Vec<u8>) -> (r: Result<(), Error>)
    requires
        old(st).inv(),
    ensures
        final(st).inv(),
        (match r {
            Ok(()) => old(st).spec_authorized(caller@) && final(st).authorized@ == old(st).authorized@.push(other),
            Err(e) => e == Error::NotAuthorized && !old(st).spec_authorized(caller@) && *final(st)
                == *old(st),
        }),
        final(st).assets == old(st).assets,
        final(st).chunks == old(st).chunks,
        final(st).batches == old(st).batches,
        final(st).next_batch_id == old(st).next_batch_id,
        final(st).next_chunk_id == old(st).next_chunk_id,
        final(st).asset_hashes == old(st).asset_hashes,
        final(st).chunk_hashes == old(st).chunk_hashes,
        final(st).certified_data == old(st).certified_data,
{
    match is_authorized(st, caller) {
        Ok(()) => {
            st.authorized.push(other);
            Ok(())
        },
        Err(e) => Err(e),
    }
}

/// Recomputes the root and records what the host would publish.
pub fn set_root_hash(st: &mut State)
    ensures
        final(st).certified_data@ == labeled_hash_of(tree_label(), rb_root(final(st).asset_hashes)),
        final(st).assets == old(st).assets,
        final(st).chunks == old(st).chunks,
        final(st).batches == old(st).batches,
        final(st).next_batch_id == old(st).next_batch_id,
        final(st).next_chunk_id == old(st).next_chunk_id,
        final(st).authorized == old(st).authorized,
        final(st).asset_hashes == old(st).asset_hashes,
        final(st).chunk_hashes == old(st).chunk_hashes,
{
    let root = rb_root_hash(&st.asset_hashes);
    st.certified_data = labeled_hash32("http_assets".as_bytes(), &root);
}

/// Inserts the digest for a key into the asset-hash tree and republishes.
pub fn certify_asset(st: &mut State, key: String, content_hash: &Vec<u8>)
    requires
        content_hash@.len() == 32,
    ensures
        rb_view(final(st).asset_hashes) == rb_view(old(st).asset_hashes).insert(
            key@,
            content_hash@,
        ),
        final(st).certified_data@ == labeled_hash_of(tree_label(), rb_root(final(st).asset_hashes)),
        final(st).assets == old(st).assets,
        final(st).chunks == old(st).chunks,
        final(st).batches == old(st).batches,
        final(st).next_batch_id == old(st).next_batch_id,
        final(st).next_chunk_id == old(st).next_chunk_id,
        final(st).authorized == old(st).authorized,
        final(st).chunk_hashes == old(st).chunk_hashes,
{
    rb_insert(&mut st.asset_hashes, key, content_hash);
    set_root_hash(st);
}

/// Removes a key from the asset-hash tree and republishes.
pub fn delete_asset_hash(st: &mut State, key: &str)
    ensures
        rb_view(final(st).asset_hashes) == rb_view(old(st).asset_hashes).remove(key@),
        final(st).certified_data@ == labeled_hash_of(tree_label(), rb_root(final(st).asset_hashes)),
        final(st).assets == old(st).assets,
        final(st).chunks == old(st).chunks,
        final(st).batches == old(st).batches,
        final(st).next_batch_id == old(st).next_batch_id,
        final(st).next_chunk_id == old(st).next_chunk_id,
        final(st).authorized == old(st).authorized,
        final(st).chunk_hashes == old(st).chunk_hashes,
{
    rb_delete(&mut st.asset_hashes, key);
    set_root_hash(st);
}

/// Drops a key's chunk-hash tree.
pub fn delete_chunks(st: &mut State, key: &str)
    requires
        old(st).chunk_hashes.wf(),
    ensures
        final(st).chunk_hashes@ == old(st).chunk_hashes@.remove(key@),
        final(st).chunk_hashes.wf(),
        final(st).assets == old(st).assets,
        final(st).chunks == old(st).chunks,
        final(st).batches == old(st).batches,
        final(st).next_batch_id == old(st).next_batch_id,
        final(st).next_chunk_id == old(st).next_chunk_id,
        final(st).authorized == old(st).authorized,
        final(st).asset_hashes == old(st).asset_hashes,
        final(st).certified_data == old(st).certified_data,
{
    let _ = st.chunk_hashes.remove(key);
}


/// What creating an asset leaves behind: an existing asset of the same
/// content type is left alone, a different content type is rejected, and
/// otherwise an empty asset appears under the key.
pub open spec fn create_asset_post(
    pre: State,
    post: State,
    arg: CreateAssetArguments,
    r: Result<(), Error>,
) -> bool {
    match r {
        Ok(()) => if pre.assets@.contains_key(arg.key@) {
            post == pre && pre.assets@[arg.key@].content_type@ == arg.content_type@
        } else {
            &&& post.assets@.contains_key(arg.key@)
            &&& post.assets@[arg.key@].content_type == arg.content_type
            &&& post.assets@[arg.key@].encodings@ =~= Map::<Seq<char>, AssetEncoding>::empty()
            &&& post.assets@ =~= pre.assets@.insert(arg.key@, post.assets@[arg.key@])
            &&& post.chunks == pre.chunks
            &&& post.batches == pre.batches
            &&& post.asset_hashes == pre.asset_hashes
            &&& post.chunk_hashes == pre.chunk_hashes
            &&& post.certified_data == pre.certified_data
            &&& post.authorized == pre.authorized
            &&& post.next_batch_id == pre.next_batch_id
            &&& post.next_chunk_id == pre.next_chunk_id
        },
        Err(e) => e == Error::ContentTypeMismatch && post == pre && pre.assets@.contains_key(
            arg.key@,
        ) && pre.assets@[arg.key@].content_type@ != arg.content_type@,
    }
}

/// What removing one encoding leaves behind: the named encoding is gone, the
/// others keep everything but their certified flags, other assets are
/// untouched, and when something was removed the asset-hash tree holds the
/// key exactly while encodings remain.
pub open spec fn unset_asset_content_post(
    pre: State,
    post: State,
    arg: UnsetAssetContentArguments,
    r: Result<(), Error>,
) -> bool {
    match r {
        Ok(()) => {
            let encs0 = pre.assets@[arg.key@].encodings@;
            let encs1 = post.assets@[arg.key@].encodings@;
            &&& pre.assets@.contains_key(arg.key@)
            &&& post.assets@.contains_key(arg.key@)
            &&& post.assets@[arg.key@].content_type == pre.assets@[arg.key@].content_type
            &&& (forall|e: Seq<char>|
                encs1.contains_key(e) == (encs0.contains_key(e) && e != arg.content_encoding@))
            &&& (forall|e: Seq<char>| #[trigger]
                encs1.contains_key(e) ==> encs1[e] == (AssetEncoding {
                    certified: encs1[e].certified,
                    ..encs0[e]
                }))
            &&& (encs0.contains_key(arg.content_encoding@) ==> (rb_view(
                post.asset_hashes,
            ).contains_key(arg.key@) <==> !no_encodings(encs1)))
            &&& (!encs0.contains_key(arg.content_encoding@) ==> post.asset_hashes
                == pre.asset_hashes && post.chunk_hashes == pre.chunk_hashes
                && post.certified_data == pre.certified_data && (forall|e: Seq<char>| #[trigger]
                encs1.contains_key(e) ==> encs1[e] == encs0[e]))
            &&& (forall|k2: Seq<char>|
                k2 != arg.key@ ==> post.assets@.contains_key(k2) == pre.assets@.contains_key(k2))
            &&& (forall|k2: Seq<char>|
                k2 != arg.key@ && #[trigger] post.assets@.contains_key(k2) ==> post.assets@[k2]
                    == pre.assets@[k2])
            &&& post.chunks == pre.chunks
            &&& post.batches == pre.batches
            &&& post.next_batch_id == pre.next_batch_id
            &&& post.next_chunk_id == pre.next_chunk_id
            &&& post.authorized == pre.authorized
        },
        Err(e) => e == Error::AssetNotFound && !pre.assets@.contains_key(arg.key@) && post == pre,
    }
}

/// What deleting an asset leaves behind.
pub open spec fn delete_asset_post(pre: State, post: State, arg: DeleteAssetArguments) -> bool {
    &&& post.assets@ == pre.assets@.remove(arg.key@)
    &&& rb_view(post.asset_hashes) == rb_view(pre.asset_hashes).remove(arg.key@)
    &&& post.chunk_hashes@ == pre.chunk_hashes@.remove(arg.key@)
    &&& post.chunks == pre.chunks
    &&& post.batches == pre.batches
    &&& post.next_batch_id == pre.next_batch_id
    &&& post.next_chunk_id == pre.next_chunk_id
    &&& post.authorized == pre.authorized
}

/// What clearing leaves behind.
pub open spec fn clear_post(pre: State, post: State) -> bool {
    &&& post.assets@ == Map::<Seq<char>, Asset>::empty()
    &&& post.chunks@ == Map::<u64, Chunk>::empty()
    &&& post.batches@ == Map::<u64, Batch>::empty()
    &&& post.next_batch_id == 1u64
    &&& post.next_chunk_id == 1u64
    &&& post.chunk_hashes@ == Map::<Seq<char>, RbMap>::empty()
    &&& rb_view(post.asset_hashes) == crate::tree::rb_empty_view()
    &&& post.authorized == pre.authorized
}

/// Creates an empty asset, or leaves an existing one of the same content
/// type alone; a different content type is rejected.
pub fn do_create_asset(st: &mut State, arg: CreateAssetArguments) -> (r: Result<(), Error>)
    requires
        old(st).inv(),
    ensures
        final(st).inv(),
        create_asset_post(*old(st), *final(st), arg, r),
{
    let existing = st.assets.get(arg.key.as_str());
    match existing {
        Some(asset) => {
            if str_eq(asset.content_type.as_str(), arg.content_type.as_str()) {
                Ok(())
            } else {
                Err(Error::ContentTypeMismatch)
            }
        },
        None => {
            let a = Asset { content_type: arg.content_type, encodings: Table::new() };
            let ghost olds = *st;
            st.assets.insert(arg.key, a);
            proof {
                let k = arg.key@;
                let h = rb_view(st.asset_hashes);
                assert forall|k2: Seq<char>| #[trigger]
                    st.assets@.contains_key(k2) implies asset_ok(
                    st.assets@[k2],
                    k2,
                    h,
                    st.chunk_hashes@.contains_key(k2),
                ) by {
                    if k2 == k {
                        assert(!h.contains_key(k));
                        assert(!olds.chunk_hashes@.contains_key(k));
                    } else {
                        assert(olds.assets@.contains_key(k2));
                    }
                }
            }
            Ok(())
        },
    }
}

/// Removes an asset together with its tree entries.
pub fn do_delete_asset(st: &mut State, arg: DeleteAssetArguments)
    requires
        old(st).inv(),
    ensures
        final(st).inv(),
        delete_asset_post(*old(st), *final(st), arg),
{
    let _ = st.assets.remove(arg.key.as_str());
    delete_asset_hash(st, arg.key.as_str());
    delete_chunks(st, arg.key.as_str());
    proof {
        let k = arg.key@;
        let h = rb_view(st.asset_hashes);
        assert forall|k2: Seq<char>| #[trigger]
            st.assets@.contains_key(k2) implies asset_ok(
            st.assets@[k2],
            k2,
            h,
            st.chunk_hashes@.contains_key(k2),
        ) by {
            assert(k2 != k);
            assert(old(st).assets@.contains_key(k2));
        }
    }
}

/// Empties assets, batches and staged chunks, resets both id counters, and
/// republishes the empty tree; the allowlist stays.
pub fn do_clear(st: &mut State)
    ensures
        final(st).inv(),
        clear_post(*old(st), *final(st)),
{
    st.assets.clear();
    st.batches.clear();
    st.chunks.clear();
    st.next_batch_id = 1;
    st.next_chunk_id = 1;
    st.asset_hashes = rb_new();
    st.chunk_hashes.clear();
    set_root_hash(st);
}


/// A cleared copy of an encoding: the same content, not certified.
pub open spec fn cleared_enc(e: AssetEncoding) -> AssetEncoding {
    AssetEncoding { certified: false, ..e }
}

/// Clears the certified flag on every encoding, leaving everything else.
fn clear_certified(encs: &mut Table<AssetEncoding>)
    requires
        old(encs).wf(),
    ensures
        final(encs).wf(),
        final(encs).entries@.len() == old(encs).entries@.len(),
        (forall|i: int|
            0 <= i < old(encs).entries@.len() ==> final(encs).entries@[i].0@ == old(
                encs,
            ).entries@[i].0@ && final(encs).entries@[i].1 == cleared_enc(
                old(encs).entries@[i].1,
            )),
        (forall|e: Seq<char>|
            final(encs)@.contains_key(e) == old(encs)@.contains_key(e)),
        (forall|e: Seq<char>| #[trigger]
            final(encs)@.contains_key(e) ==> final(encs)@[e] == cleared_enc(old(encs)@[e])),
{
    let ghost orig = *encs;
    let n = encs.entries.len();
    let mut i: usize = 0;
    while i < n
        invariant
            i <= n,
            n == encs.entries@.len(),
            n == orig.entries@.len(),
            forall|j: int|
                0 <= j < i ==> encs.entries@[j].0@ == orig.entries@[j].0@ && encs.entries@[j].1
                    == cleared_enc(orig.entries@[j].1),
            forall|j: int| i <= j < n ==> encs.entries@[j] == orig.entries@[j],
        decreases n - i,
    {
        let (k, mut e) = encs.entries.remove(i);
        e.certified = false;
        encs.entries.insert(i, (k, e));
        proof {
            assert forall|j: int| i + 1 <= j < n implies encs.entries@[j] == orig.entries@[j] by {
            }
        }
        i = i + 1;
    }
    proof {
        assert(encs.wf()) by {
            assert forall|a: int, b: int|
                0 <= a < b < encs.entries@.len() implies encs.entries@[a].0@
                != encs.entries@[b].0@ by {
                assert(encs.entries@[a].0@ == orig.entries@[a].0@);
                assert(encs.entries@[b].0@ == orig.entries@[b].0@);
            }
        }
        assert forall|e: Seq<char>| encs@.contains_key(e) == orig@.contains_key(e) by {
            if encs.contains(e) {
                let j = encs.idx_of(e);
                assert(orig.entries@[j].0@ == e);
                assert(orig.contains(e));
            }
            if orig.contains(e) {
                let j = orig.idx_of(e);
                assert(encs.entries@[j].0@ == e);
                assert(encs.contains(e));
            }
        }
        assert forall|e: Seq<char>| #[trigger] encs@.contains_key(e) implies encs@[e]
            == cleared_enc(orig@[e]) by {
            let j = encs.idx_of(e);
            encs.lemma_entry_in_view(j);
            orig.lemma_entry_in_view(j);
        }
    }
}

/// The name of the priority list at a given rank.
fn priority_name(i: usize) -> (r: &'static str)
    requires
        i < 5,
    ensures
        r@ == encoding_priority()[i as int],
{
    if i == 0 {
        "identity"
    } else if i == 1 {
        "gzip"
    } else if i == 2 {
        "compress"
    } else if i == 3 {
        "deflate"
    } else {
        "br"
    }
}

/// A name the priority scan returns is held by the map.
pub proof fn lemma_fpp_contains(encs: Map<Seq<char>, AssetEncoding>, i: int, p: Seq<char>)
    requires
        first_priority_present(encs, i) == Some(p),
    ensures
        encs.contains_key(p),
    decreases encoding_priority().len() - i,
{
    if i < 0 || i >= encoding_priority().len() {
    } else if encs.contains_key(encoding_priority()[i]) {
    } else {
        lemma_fpp_contains(encs, i + 1, p);
    }
}

/// The priority scan sees only which names are present.
pub proof fn lemma_fpp_same_dom(
    m1: Map<Seq<char>, AssetEncoding>,
    m2: Map<Seq<char>, AssetEncoding>,
    i: int,
)
    requires
        forall|e: Seq<char>| m1.contains_key(e) == m2.contains_key(e),
    ensures
        first_priority_present(m1, i) == first_priority_present(m2, i),
    decreases encoding_priority().len() - i,
{
    if i < 0 || i >= encoding_priority().len() {
    } else {
        assert(m1.contains_key(encoding_priority()[i]) == m2.contains_key(
            encoding_priority()[i],
        ));
        lemma_fpp_same_dom(m1, m2, i + 1);
    }
}

/// Scans the priority list and returns the first name the table holds.
fn find_priority_encoding(encs: &Table<AssetEncoding>) -> (r: Option<&'static str>)
    requires
        encs.wf(),
    ensures
        (match r {
            Some(name) => first_priority_present(encs@, 0) == Some(name@) && encs@.contains_key(
                name@,
            ),
            None => first_priority_present(encs@, 0) is None,
        }),
{
    let mut i: usize = 0;
    while i < 5
        invariant
            i <= 5,
            encs.wf(),
            first_priority_present(encs@, 0) == first_priority_present(encs@, i as int),
        decreases 5 - i,
    {
        let name = priority_name(i);
        if encs.contains_key(name) {
            proof {
                assert(first_priority_present(encs@, i as int) == Some(
                    encoding_priority()[i as int],
                ));
            }
            return Some(name);
        }
        i = i + 1;
    }
    None
}

/// The chunk tree a key currently has, or the empty view.
pub open spec fn old_tree_view(st: State, key: Seq<char>) -> Map<Seq<char>, Seq<u8>> {
    if st.chunk_hashes@.contains_key(key) {
        rb_view(st.chunk_hashes@[key])
    } else {
        crate::tree::rb_empty_view()
    }
}

/// The key is the decimal form of some index below `n`.
pub open spec fn is_dec_key(k: Seq<char>, n: int) -> bool
    decreases n,
{
    if n <= 0 {
        false
    } else {
        k == dec_str((n - 1) as nat) || is_dec_key(k, n - 1)
    }
}

/// The new tree keeps every old entry, holds every chunk index, and maps
/// each index not previously present to that chunk's digest.
pub open spec fn tree_holds_chunks(
    t0: Map<Seq<char>, Seq<u8>>,
    t1: Map<Seq<char>, Seq<u8>>,
    chunks: Seq<ContentChunk>,
) -> bool {
    &&& (forall|k: Seq<char>| #[trigger] t0.contains_key(k) ==> t1.contains_key(k) && t1[k]
        == t0[k])
    &&& (forall|i: int| 0 <= i < chunks.len() ==> t1.contains_key(#[trigger] dec_str(i as nat)))
    &&& (forall|i: int|
        0 <= i < chunks.len() && !t0.contains_key(#[trigger] dec_str(i as nat))
            ==> t1[dec_str(i as nat)] == chunks[i].sha256@)
}

/// As `tree_holds_chunks`, and no other keys appear.
pub open spec fn tree_extended(
    t0: Map<Seq<char>, Seq<u8>>,
    t1: Map<Seq<char>, Seq<u8>>,
    chunks: Seq<ContentChunk>,
) -> bool {
    &&& tree_holds_chunks(t0, t1, chunks)
    &&& (forall|k: Seq<char>| #[trigger]
        t1.contains_key(k) ==> t0.contains_key(k) || is_dec_key(k, chunks.len() as int))
}

/// A decimal key below `n` names one index below `n`.
pub proof fn lemma_dec_key_index(k: Seq<char>, n: int)
    requires
        is_dec_key(k, n),
    ensures
        exists|j: int| 0 <= j < n && k == #[trigger] dec_str(j as nat),
    decreases n,
{
    if n > 0 {
        if k == dec_str((n - 1) as nat) {
            assert(0 <= n - 1 < n && k == dec_str((n - 1) as nat));
        } else {
            lemma_dec_key_index(k, n - 1);
        }
    }
}

/// Fills a key's chunk-hash tree with the digest of every chunk index not
/// already present; existing entries are preserved.
pub fn set_chunks_to_tree(st: &mut State, key: &String, content_chunks: &Vec<ContentChunk>)
    requires
        old(st).chunk_hashes.wf(),
        forall|i: int|
            0 <= i < content_chunks@.len() ==> content_chunks@[i].sha256@.len() == 32,
    ensures
        final(st).chunk_hashes.wf(),
        final(st).chunk_hashes@.contains_key(key@),
        (forall|k2: Seq<char>|
            k2 != key@ ==> final(st).chunk_hashes@.contains_key(k2) == old(st).chunk_hashes@.contains_key(k2)),
        (forall|k2: Seq<char>|
            k2 != key@ && #[trigger] final(st).chunk_hashes@.contains_key(k2) ==> final(st).chunk_hashes@[k2] == old(st).chunk_hashes@[k2]),
        tree_extended(
            old_tree_view(*old(st), key@),
            rb_view(final(st).chunk_hashes@[key@]),
            content_chunks@,
        ),
        final(st).assets == old(st).assets,
        final(st).chunks == old(st).chunks,
        final(st).batches == old(st).batches,
        final(st).next_batch_id == old(st).next_batch_id,
        final(st).next_chunk_id == old(st).next_chunk_id,
        final(st).authorized == old(st).authorized,
        final(st).asset_hashes == old(st).asset_hashes,
        final(st).certified_data == old(st).certified_data,
{
    let removed = st.chunk_hashes.remove(key.as_str());
    let mut tree: RbMap = match removed {
        Some(t) => t,
        None => rb_new(),
    };
    let ghost t0 = rb_view(tree);
    let mut i: usize = 0;
    while i < content_chunks.len()
        invariant
            forall|k: Seq<char>| #[trigger]
                t0.contains_key(k) ==> rb_view(tree).contains_key(k) && rb_view(tree)[k] == t0[k],
            forall|j: int| 0 <= j < i ==> rb_view(tree).contains_key(#[trigger] dec_str(j as nat)),
            forall|j: int|
                0 <= j < i && !t0.contains_key(#[trigger] dec_str(j as nat)) ==> rb_view(
                    tree,
                )[dec_str(j as nat)] == content_chunks@[j].sha256@,
            forall|k: Seq<char>| #[trigger]
                rb_view(tree).contains_key(k) ==> t0.contains_key(k) || is_dec_key(k, i as int),
            i <= content_chunks@.len(),
            forall|j: int|
                0 <= j < content_chunks@.len() ==> content_chunks@[j].sha256@.len() == 32,
        decreases content_chunks@.len() - i,
    {
        let ks = u64_to_string(i as u64);
        let have = rb_get(&tree, ks.as_str());
        let ghost present0 = have is Some;
        let ghost before = rb_view(tree);
        match have {
            Some(_) => {},
            None => {
                rb_insert(&mut tree, ks, &content_chunks[i].sha256);
            },
        }
        proof {
            assert((i as u64) as nat == i as nat);
            assert(ks@ == dec_str(i as nat));
            assert forall|k: Seq<char>| #[trigger]
                rb_view(tree).contains_key(k) implies t0.contains_key(k) || is_dec_key(
                k,
                i + 1,
            ) by {
                if k == dec_str(i as nat) {
                    assert(is_dec_key(k, i + 1));
                } else {
                    assert(before.contains_key(k));
                    if !t0.contains_key(k) {
                        assert(is_dec_key(k, i as int));
                        assert(is_dec_key(k, i + 1));
                    }
                }
            }
            assert forall|j: int|
                0 <= j < i + 1 && !t0.contains_key(#[trigger] dec_str(j as nat)) implies rb_view(
                tree,
            )[dec_str(j as nat)] == content_chunks@[j].sha256@ by {
                if present0 {
                    if j == i as int {
                        assert(before.contains_key(dec_str(i as nat)));
                        assert(is_dec_key(dec_str(i as nat), i as int));
                        lemma_dec_key_index(dec_str(i as nat), i as int);
                        let j2 = choose|j2: int|
                            0 <= j2 < i && dec_str(i as nat) == #[trigger] dec_str(j2 as nat);
                        crate::ext::lemma_dec_str_injective(i as nat, j2 as nat);
                        assert(false);
                    }
                } else {
                    if j < i {
                        assert(before.contains_key(dec_str(j as nat)));
                        assert(dec_str(j as nat) != dec_str(i as nat));
                    }
                }
            }
        }
        i = i + 1;
    }
    st.chunk_hashes.insert(key.clone(), tree);
    proof {
        assert(final(st).chunk_hashes@[key@] == tree);
    }
}


/// The encoding certification picks: the first of the priority list that is
/// present, else the first entry of the table.
pub open spec fn chosen_enc(a: Asset) -> Seq<char> {
    match first_priority_present(a.encodings@, 0) {
        Some(p) => p,
        None => a.encodings.entries@[0].0@,
    }
}

/// Re-certifies an asset after a mutation: if the preferred encoding is
/// already certified nothing happens; an asset without encodings is removed
/// from both trees; otherwise every flag is cleared, the preferred encoding
/// is certified, the tree root is republished, and the chunk tree is filled.
pub fn on_asset_change(st: &mut State, key: &String, asset: &mut Asset)
    requires
        old(st).chunk_hashes.wf(),
        old(asset).encodings.wf(),
        forall|e: Seq<char>| #[trigger]
            old(asset).encodings@.contains_key(e) ==> enc_layout_ok(old(asset).encodings@[e]),
    ensures
        final(st).chunk_hashes.wf(),
        final(asset).encodings.wf(),
        final(asset).content_type == old(asset).content_type,
        final(st).assets == old(st).assets,
        final(st).chunks == old(st).chunks,
        final(st).batches == old(st).batches,
        final(st).next_batch_id == old(st).next_batch_id,
        final(st).next_chunk_id == old(st).next_chunk_id,
        final(st).authorized == old(st).authorized,
        (forall|e: Seq<char>| #[trigger]
            final(asset).encodings@.contains_key(e) ==> enc_layout_ok(final(asset).encodings@[e])),
        ({
            let encs0 = old(asset).encodings@;
            if (match first_priority_present(encs0, 0) {
                Some(p) => encs0[p].certified,
                None => false,
            }) {
                *final(asset) == *old(asset) && *final(st) == *old(st)
            } else if no_encodings(encs0) {
                *final(asset) == *old(asset) && rb_view(final(st).asset_hashes) == rb_view(
                    old(st).asset_hashes,
                ).remove(key@) && final(st).chunk_hashes@ == old(st).chunk_hashes@.remove(key@)
                    && final(st).certified_data@ == labeled_hash_of(
                    tree_label(),
                    rb_root(final(st).asset_hashes),
                )
            } else {
                let chosen = chosen_enc(*old(asset));
                &&& (forall|e: Seq<char>|
                    final(asset).encodings@.contains_key(e) == encs0.contains_key(e))
                &&& (forall|e: Seq<char>| #[trigger]
                    final(asset).encodings@.contains_key(e) ==> final(asset).encodings@[e]
                        == (AssetEncoding { certified: e == chosen, ..encs0[e] }))
                &&& encs0.contains_key(chosen)
                &&& rb_view(final(st).asset_hashes) == rb_view(old(st).asset_hashes).insert(
                    key@,
                    encs0[chosen].sha256@,
                )
                &&& final(st).certified_data@ == labeled_hash_of(
                    tree_label(),
                    rb_root(final(st).asset_hashes),
                )
                &&& final(st).chunk_hashes@.contains_key(key@)
                &&& tree_extended(
                    old_tree_view(*old(st), key@),
                    rb_view(final(st).chunk_hashes@[key@]),
                    encs0[chosen].content_chunks@,
                )
                &&& (forall|k2: Seq<char>|
                    k2 != key@ ==> final(st).chunk_hashes@.contains_key(k2) == old(st).chunk_hashes@.contains_key(k2))
                &&& (forall|k2: Seq<char>|
                    k2 != key@ && #[trigger] final(st).chunk_hashes@.contains_key(k2) ==> final(st).chunk_hashes@[k2] == old(st).chunk_hashes@[k2])
            }
        }),
{
    let ghost encs0 = asset.encodings@;
    let pres = find_priority_encoding(&asset.encodings);
    match pres {
        Some(name) => {
            let e = asset.encodings.get(name);
            match e {
                Some(enc) => {
                    if enc.certified {
                        return ;
                    }
                },
                None => {
                    proof {
                        assert(false);
                    }
                },
            }
        },
        None => {},
    }
    if asset.encodings.len() == 0 {
        proof {
            assert(no_encodings(encs0)) by {
                assert forall|e: Seq<char>| !encs0.contains_key(e) by {
                    if encs0.contains_key(e) {
                        let j = old(asset).encodings.idx_of(e);
                        assert(0 <= j < old(asset).encodings.entries@.len());
                    }
                }
            }
        }
        delete_asset_hash(st, key.as_str());
        delete_chunks(st, key.as_str());
        return ;
    }
    proof {
        assert(encs0.contains_key(old(asset).encodings.entries@[0].0@)) by {
            old(asset).encodings.lemma_entry_in_view(0);
        }
        assert(!no_encodings(encs0));
    }
    clear_certified(&mut asset.encodings);
    proof {
        lemma_fpp_same_dom(asset.encodings@, encs0, 0);
    }
    let chosen_name: String = match find_priority_encoding(&asset.encodings) {
        Some(n) => n.to_owned(),
        None => asset.encodings.key_at(0).clone(),
    };
    proof {
        assert(asset.encodings@.contains_key(chosen_name@)) by {
            if first_priority_present(encs0, 0) is Some {
                lemma_fpp_contains(encs0, 0, chosen_name@);
                assert(asset.encodings@.contains_key(chosen_name@));
            } else {
                asset.encodings.lemma_entry_in_view(0);
            }
        }
        assert(chosen_name@ == chosen_enc(*old(asset)));
    }
    let mut enc: AssetEncoding = match asset.encodings.remove(chosen_name.as_str()) {
        Some(e) => e,
        None => vstd::pervasive::unreached(),
    };
    proof {
        let chosen = chosen_enc(*old(asset));
        assert(enc_layout_ok(encs0[chosen]));
        assert(enc.content_chunks == encs0[chosen].content_chunks);
        assert forall|i: int|
            0 <= i < enc.content_chunks@.len() implies enc.content_chunks@[i].sha256@.len()
            == 32 by {
            assert(chunk_at_ok(encs0[chosen].content_chunks@, i));
        }
    }
    certify_asset(st, key.clone(), &enc.sha256);
    enc.certified = true;
    set_chunks_to_tree(st, key, &enc.content_chunks);
    let ghost enc_final = enc;
    asset.encodings.insert(chosen_name, enc);
    proof {
        let chosen = chosen_enc(*old(asset));
        assert(enc_final == AssetEncoding { certified: true, ..encs0[chosen] });
        assert forall|e: Seq<char>| #[trigger]
            final(asset).encodings@.contains_key(e) implies final(asset).encodings@[e]
            == AssetEncoding { certified: e == chosen, ..encs0[e] } by {
        }
        assert forall|e: Seq<char>| #[trigger]
            final(asset).encodings@.contains_key(e) implies enc_layout_ok(
            final(asset).encodings@[e],
        ) by {
            assert(encs0.contains_key(e));
            assert(enc_layout_ok(encs0[e]));
        }
    }
}


/// After certification chose `chosen`, the asset satisfies the certification
/// discipline against the updated tree.
pub proof fn lemma_asset_ok_after_change(
    encs0: Map<Seq<char>, AssetEncoding>,
    a1: Asset,
    k: Seq<char>,
    h0: Map<Seq<char>, Seq<u8>>,
    h1: Map<Seq<char>, Seq<u8>>,
    chosen: Seq<char>,
)
    requires
        a1.encodings.wf(),
        (forall|e: Seq<char>| a1.encodings@.contains_key(e) == encs0.contains_key(e)),
        (forall|e: Seq<char>| #[trigger]
            a1.encodings@.contains_key(e) ==> a1.encodings@[e] == (AssetEncoding {
                certified: e == chosen,
                ..encs0[e]
            })),
        encs0.contains_key(chosen),
        (forall|e: Seq<char>| #[trigger]
            a1.encodings@.contains_key(e) ==> enc_layout_ok(a1.encodings@[e])),
        h1 == h0.insert(k, encs0[chosen].sha256@),
        (match first_priority_present(encs0, 0) {
            Some(p) => chosen == p,
            None => true,
        }),
    ensures
        asset_ok(a1, k, h1, true),
{
    let encs = a1.encodings@;
    assert(encs.contains_key(chosen));
    assert(encs[chosen].certified);
    assert forall|e1: Seq<char>, e2: Seq<char>|
        #![trigger encs[e1].certified, encs[e2].certified]
        encs.contains_key(e1) && encs.contains_key(e2) && encs[e1].certified && encs[e2].certified
            implies e1 == e2 by {
        assert(e1 == chosen && e2 == chosen);
    }
    assert forall|e: Seq<char>|
        encs.contains_key(e) && #[trigger] encs[e].certified implies h1[k] == encs[e].sha256@ by {
        assert(e == chosen);
        assert(encs[chosen].sha256 == encs0[chosen].sha256);
    }
    lemma_fpp_same_dom(encs, encs0, 0);
    assert forall|e: Seq<char>|
        encs.contains_key(e) && #[trigger] encs[e].certified implies (match first_priority_present(
        encs,
        0,
    ) {
        Some(p) => e == p,
        None => true,
    }) by {
        assert(e == chosen);
    }
    assert(!no_encodings(encs));
}

/// An asset untouched by an operation keeps its certification discipline
/// when the tree kept its entry for that asset's key.
pub proof fn lemma_asset_ok_frame(
    a: Asset,
    k2: Seq<char>,
    h0: Map<Seq<char>, Seq<u8>>,
    h1: Map<Seq<char>, Seq<u8>>,
    ct: bool,
)
    requires
        asset_ok(a, k2, h0, ct),
        h1.contains_key(k2) == h0.contains_key(k2),
        h0.contains_key(k2) ==> h1[k2] == h0[k2],
    ensures
        asset_ok(a, k2, h1, ct),
{
}

/// Removes one encoding from an asset; when one was removed the asset is
/// re-certified.
pub fn do_unset_asset_content(st: &mut State, arg: UnsetAssetContentArguments) -> (r: Result<
    (),
    Error,
>)
    requires
        old(st).inv(),
    ensures
        final(st).inv(),
        unset_asset_content_post(*old(st), *final(st), arg, r),
{
    if !st.assets.contains_key(arg.key.as_str()) {
        return Err(Error::AssetNotFound);
    }
    let ghost st0 = *st;
    let mut asset = match st.assets.remove(arg.key.as_str()) {
        Some(a) => a,
        None => vstd::pervasive::unreached(),
    };
    let ghost a0 = asset;
    proof {
        assert(asset_ok(
            a0,
            arg.key@,
            rb_view(st0.asset_hashes),
            st0.chunk_hashes@.contains_key(arg.key@),
        ));
    }
    let removed = asset.encodings.remove(arg.content_encoding.as_str());
    let ghost a_mid = asset;
    if removed.is_some() {
        on_asset_change(st, &arg.key, &mut asset);
    }
    let ghost a_fin = asset;
    let ghost st_mid = *st;
    st.assets.insert(arg.key.clone(), asset);
    proof {
        let k = arg.key@;
        let h = rb_view(st.asset_hashes);
        let encs0 = a0.encodings@;
        let encs_mid = a_mid.encodings@;
        assert forall|k2: Seq<char>| #[trigger]
            st.assets@.contains_key(k2) implies asset_ok(
            st.assets@[k2],
            k2,
            h,
            st.chunk_hashes@.contains_key(k2),
        ) by {
            if k2 == k {
                if removed is Some {
                    if (match first_priority_present(encs_mid, 0) {
                        Some(p) => encs_mid[p].certified,
                        None => false,
                    }) {
                        let p = first_priority_present(encs_mid, 0).unwrap();
                        lemma_fpp_contains(encs_mid, 0, p);
                        assert(encs0.contains_key(p) && encs0[p].certified);
                        lemma_fpp_same_dom(encs_mid, a_fin.encodings@, 0);
                        assert(h.contains_key(k));
                        assert(h[k] == encs0[p].sha256@);
                        assert(asset_ok(a_fin, k, h, st.chunk_hashes@.contains_key(k)));
                    } else if no_encodings(encs_mid) {
                        assert(!h.contains_key(k));
                        assert(!st.chunk_hashes@.contains_key(k));
                        assert(asset_ok(a_fin, k, h, st.chunk_hashes@.contains_key(k)));
                    } else {
                        lemma_asset_ok_after_change(
                            encs_mid,
                            a_fin,
                            k,
                            rb_view(st0.asset_hashes),
                            h,
                            chosen_enc(a_mid),
                        );
                        assert(st.chunk_hashes@.contains_key(k));
                        assert(asset_ok(a_fin, k, h, st.chunk_hashes@.contains_key(k)));
                    }
                } else {
                    assert(a_fin == a_mid);
                    assert(encs_mid =~= encs0);
                    assert(asset_ok(a_fin, k, h, st.chunk_hashes@.contains_key(k)));
                }
            } else {
                assert(st0.assets@.contains_key(k2));
                assert(st.assets@[k2] == st0.assets@[k2]);
                assert(st.chunk_hashes@.contains_key(k2) == st0.chunk_hashes@.contains_key(k2));
                lemma_asset_ok_frame(
                    st0.assets@[k2],
                    k2,
                    rb_view(st0.asset_hashes),
                    h,
                    st0.chunk_hashes@.contains_key(k2),
                );
            }
        }
        assert forall|k2: Seq<char>| #[trigger]
            rb_view(st.asset_hashes).contains_key(k2) implies st.assets@.contains_key(k2) by {
            if k2 != k {
                assert(rb_view(st0.asset_hashes).contains_key(k2));
            }
        }
        assert forall|k2: Seq<char>| #[trigger]
            st.chunk_hashes@.contains_key(k2) implies st.assets@.contains_key(k2) by {
            if k2 != k {
                assert(st0.chunk_hashes@.contains_key(k2));
            }
        }
        assert(st.assets@[k] == a_fin);
        assert(a_fin.content_type == a0.content_type);
        let encs1 = a_fin.encodings@;
        assert forall|e: Seq<char>|
            encs1.contains_key(e) == (encs0.contains_key(e) && e != arg.content_encoding@) by {
            if removed is Some {
                assert(encs1.contains_key(e) == encs_mid.contains_key(e));
            } else {
                assert(encs_mid =~= encs0);
            }
        }
        assert forall|e: Seq<char>| #[trigger] encs1.contains_key(e) implies encs1[e]
            == (AssetEncoding { certified: encs1[e].certified, ..encs0[e] }) by {
            assert(e != arg.content_encoding@);
            assert(encs_mid[e] == encs0[e]);
            if removed is Some {
                if (match first_priority_present(encs_mid, 0) {
                    Some(p) => encs_mid[p].certified,
                    None => false,
                }) {
                    assert(a_fin == a_mid);
                } else {
                    assert(!no_encodings(encs_mid));
                    assert(encs1[e] == (AssetEncoding {
                        certified: e == chosen_enc(a_mid),
                        ..encs_mid[e]
                    }));
                }
            } else {
                assert(a_fin == a_mid);
            }
        }
        if removed is Some {
            assert(encs0.contains_key(arg.content_encoding@));
            assert(h.contains_key(k) <==> !no_encodings(encs1)) by {
                if (match first_priority_present(encs_mid, 0) {
                    Some(p) => encs_mid[p].certified,
                    None => false,
                }) {
                    let p = first_priority_present(encs_mid, 0).unwrap();
                    lemma_fpp_contains(encs_mid, 0, p);
                    assert(encs0.contains_key(p) && encs0[p].certified);
                    assert(h.contains_key(k));
                    assert(encs1.contains_key(p));
                } else if no_encodings(encs_mid) {
                    assert(!h.contains_key(k));
                    assert(no_encodings(encs1));
                } else {
                    assert(h.contains_key(k));
                    assert(encs1.contains_key(chosen_enc(a_mid)));
                }
            }
        } else {
            assert(st.asset_hashes == st0.asset_hashes && st.chunk_hashes == st0.chunk_hashes
                && st.certified_data == st0.certified_data);
            assert(a_fin == a_mid);
            assert forall|e: Seq<char>| #[trigger] encs1.contains_key(e) implies encs1[e]
                == encs0[e] by {
                assert(encs_mid.contains_key(e) && encs_mid[e] == encs0[e]);
            }
        }
        assert forall|k2: Seq<char>|
            k2 != k ==> st.assets@.contains_key(k2) == st0.assets@.contains_key(k2) by {}
        assert forall|k2: Seq<char>|
            k2 != k && #[trigger] st.assets@.contains_key(k2) implies st.assets@[k2]
            == st0.assets@[k2] by {}
        assert(unset_asset_content_post(*old(st), *st, arg, Ok(())));
    }
    Ok(())
}


/// Every staged chunk holds at least one byte.
pub open spec fn staged_lens_ok(st: State) -> bool {
    forall|id: u64| #[trigger] st.chunks@.contains_key(id) ==> st.chunks@[id].content@.len() >= 1
}

/// All listed chunk ids are staged, and no id is listed twice.
pub open spec fn ids_consumable(chunks: Map<u64, Chunk>, ids: Seq<u64>) -> bool {
    &&& (forall|j: int| 0 <= j < ids.len() ==> chunks.contains_key(#[trigger] ids[j]))
    &&& (forall|a: int, b: int| 0 <= a < b < ids.len() ==> ids[a] != ids[b])
}

/// The bytes the listed staged chunks hold together.
pub open spec fn ids_total(chunks: Map<u64, Chunk>, ids: Seq<u64>) -> nat
    decreases ids.len(),
{
    if ids.len() == 0 {
        0
    } else {
        (ids_total(chunks, ids.drop_last()) + (if chunks.contains_key(ids.last()) {
            chunks[ids.last()].content@.len()
        } else {
            0
        })) as nat
    }
}

/// A prefix of the list never holds more bytes than the whole list.
pub proof fn lemma_ids_total_take(chunks: Map<u64, Chunk>, ids: Seq<u64>, j: int)
    requires
        0 <= j <= ids.len(),
    ensures
        ids_total(chunks, ids.take(j)) <= ids_total(chunks, ids),
    decreases ids.len() - j,
{
    if j == ids.len() {
        assert(ids.take(j) =~= ids);
    } else {
        assert(ids.take(j + 1).drop_last() =~= ids.take(j));
        assert(ids.take(j + 1).last() == ids[j]);
        lemma_ids_total_take(chunks, ids, j + 1);
    }
}

/// The prefix sums are stable when a chunk is appended.
pub proof fn lemma_prefix_len_push(chunks: Seq<ContentChunk>, x: ContentChunk, i: int)
    requires
        0 <= i <= chunks.len(),
    ensures
        prefix_len(chunks.push(x), i) == prefix_len(chunks, i),
    decreases i,
{
    if i > 0 {
        lemma_prefix_len_push(chunks, x, i - 1);
    }
}

/// What setting an encoding's content leaves behind: the named encoding is
/// rebuilt from the listed staged chunks in order, the chunks are consumed,
/// every other encoding and asset keeps everything but certified flags, and
/// the asset ends up certified in the asset-hash tree.
pub open spec fn set_asset_content_post(
    pre: State,
    post: State,
    now: u64,
    arg: SetAssetContentArguments,
    r: Result<(), Error>,
) -> bool {
    match r {
        Ok(()) => {
            let encs0 = pre.assets@[arg.key@].encodings@;
            let encs1 = post.assets@[arg.key@].encodings@;
            &&& arg.chunk_ids@.len() >= 1
            &&& pre.assets@.contains_key(arg.key@)
            &&& ids_consumable(pre.chunks@, arg.chunk_ids@)
            &&& post.assets@.contains_key(arg.key@)
            &&& post.assets@[arg.key@].content_type == pre.assets@[arg.key@].content_type
            &&& encs1.contains_key(arg.content_encoding@)
            &&& ({
                let e = encs1[arg.content_encoding@];
                &&& e.modified == now
                &&& e.content_chunks@.len() == arg.chunk_ids@.len()
                &&& (forall|j: int|
                    0 <= j < arg.chunk_ids@.len() ==> e.content_chunks@[j].content@
                        == pre.chunks@[#[trigger] arg.chunk_ids@[j]].content@
                        && e.content_chunks@[j].sha256@
                        == pre.chunks@[arg.chunk_ids@[j]].sha256@)
                &&& e.total_length as nat == ids_total(pre.chunks@, arg.chunk_ids@)
                &&& (match arg.sha256 {
                    Some(s) => e.sha256@ == s@,
                    None => e.sha256@.len() == 32 && (exists|t: RbMap|
                        e.sha256@ == rb_root(t) && tree_extended(
                            old_tree_view(pre, arg.key@),
                            rb_view(t),
                            e.content_chunks@,
                        )) && tree_holds_chunks(
                        old_tree_view(pre, arg.key@),
                        rb_view(post.chunk_hashes@[arg.key@]),
                        e.content_chunks@,
                    ),
                })
            })
            &&& rb_view(post.asset_hashes).contains_key(arg.key@)
            &&& (arg.sha256 is None ==> post.chunk_hashes@.contains_key(arg.key@))
            &&& (forall|e2: Seq<char>|
                e2 != arg.content_encoding@ ==> encs1.contains_key(e2) == encs0.contains_key(e2))
            &&& (forall|e2: Seq<char>|
                e2 != arg.content_encoding@ && #[trigger] encs1.contains_key(e2) ==> encs1[e2]
                    == (AssetEncoding { certified: encs1[e2].certified, ..encs0[e2] }))
            &&& (forall|k2: Seq<char>|
                k2 != arg.key@ ==> post.assets@.contains_key(k2) == pre.assets@.contains_key(k2))
            &&& (forall|k2: Seq<char>|
                k2 != arg.key@ && #[trigger] post.assets@.contains_key(k2) ==> post.assets@[k2]
                    == pre.assets@[k2])
            &&& (forall|id: u64|
                post.chunks@.contains_key(id) == (pre.chunks@.contains_key(id)
                    && !arg.chunk_ids@.contains(id)))
            &&& (forall|id: u64| #[trigger]
                post.chunks@.contains_key(id) ==> post.chunks@[id] == pre.chunks@[id])
            &&& post.batches == pre.batches
            &&& post.next_batch_id == pre.next_batch_id
            &&& post.next_chunk_id == pre.next_chunk_id
            &&& post.authorized == pre.authorized
        },
        Err(e) => post == pre && ((e == Error::EncodingMustHaveChunk && arg.chunk_ids@.len() == 0)
            || (e == Error::AssetNotFound && arg.chunk_ids@.len() >= 1 && !pre.assets@.contains_key(
            arg.key@,
        )) || (e == Error::ChunkNotFound && arg.chunk_ids@.len() >= 1 && pre.assets@.contains_key(
            arg.key@,
        ) && !ids_consumable(pre.chunks@, arg.chunk_ids@)) || (e == Error::InvalidSha256
            && arg.chunk_ids@.len() >= 1 && pre.assets@.contains_key(arg.key@) && ids_consumable(
            pre.chunks@,
            arg.chunk_ids@,
        ) && (match arg.sha256 {
            Some(s) => s@.len() != 32,
            None => false,
        }))),
    }
}

/// Assembles an encoding from staged chunks, in the order given, computes or
/// takes its digest, stores it under the asset, and re-certifies.
#[verifier::rlimit(80)]
pub fn do_set_asset_content(st: &mut State, now: u64, arg: SetAssetContentArguments) -> (r: Result<
    (),
    Error,
>)
    requires
        old(st).inv(),
        staged_lens_ok(*old(st)),
        ids_consumable(old(st).chunks@, arg.chunk_ids@) ==> ids_total(
            old(st).chunks@,
            arg.chunk_ids@,
        ) <= u64::MAX,
    ensures
        final(st).inv(),
        staged_lens_ok(*final(st)),
        (forall|id: u64| #[trigger]
            final(st).chunks@.contains_key(id) ==> old(st).chunks@.contains_key(id) && final(st).chunks@[id] == old(st).chunks@[id]),
        set_asset_content_post(*old(st), *final(st), now, arg, r),
{
    if arg.chunk_ids.len() == 0 {
        return Err(Error::EncodingMustHaveChunk);
    }
    if !st.assets.contains_key(arg.key.as_str()) {
        return Err(Error::AssetNotFound);
    }
    let n = arg.chunk_ids.len();
    let mut j: usize = 0;
    while j < n
        invariant
            *st == *old(st),
            st.inv(),
            staged_lens_ok(*st),
            old(st).assets@.contains_key(arg.key@),
            n == arg.chunk_ids@.len(),
            n >= 1,
            j <= n,
            forall|jj: int| 0 <= jj < j ==> st.chunks@.contains_key(#[trigger] arg.chunk_ids@[jj]),
            forall|a: int, b: int| 0 <= a < b < j ==> arg.chunk_ids@[a] != arg.chunk_ids@[b],
        decreases n - j,
    {
        let id = arg.chunk_ids[j];
        let present = st.chunks.get(id);
        if present.is_none() {
            assert(!ids_consumable(st.chunks@, arg.chunk_ids@));
            return Err(Error::ChunkNotFound);
        }
        let mut j2: usize = 0;
        while j2 < j
            invariant
                *st == *old(st),
                st.inv(),
                staged_lens_ok(*st),
                old(st).assets@.contains_key(arg.key@),
                j2 <= j,
                j < n,
                n == arg.chunk_ids@.len(),
                n >= 1,
                forall|a: int| 0 <= a < j2 ==> arg.chunk_ids@[a] != arg.chunk_ids@[j as int],
            decreases j - j2,
        {
            if arg.chunk_ids[j2] == arg.chunk_ids[j] {
                assert(!ids_consumable(st.chunks@, arg.chunk_ids@));
                return Err(Error::ChunkNotFound);
            }
            j2 = j2 + 1;
        }
        j = j + 1;
    }
    assert(ids_consumable(st.chunks@, arg.chunk_ids@));
    match &arg.sha256 {
        Some(s) => {
            if s.len() != 32 {
                return Err(Error::InvalidSha256);
            }
        },
        None => {},
    }
    let ghost st0 = *st;
    let ghost chunks0 = st.chunks@;
    let ghost ids = arg.chunk_ids@;
    let mut content_chunks: Vec<ContentChunk> = Vec::new();
    let mut reduced_total: u64 = 0;
    let mut jj: usize = 0;
    while jj < n
        invariant
            st.inv(),
            staged_lens_ok(*st),
            n == ids.len(),
            ids == arg.chunk_ids@,
            jj <= n,
            ids_consumable(chunks0, ids),
            ids_total(chunks0, ids) <= u64::MAX,
            content_chunks@.len() == jj,
            reduced_total as nat == ids_total(chunks0, ids.take(jj as int)),
            reduced_total as nat == prefix_len(content_chunks@, jj as int),
            forall|i: int| 0 <= i < jj ==> chunk_at_ok(content_chunks@, i),
            forall|i: int|
                0 <= i < jj ==> content_chunks@[i].content@ == chunks0[#[trigger] ids[i]].content@
                    && content_chunks@[i].sha256@ == chunks0[ids[i]].sha256@,
            forall|id: u64|
                st.chunks@.contains_key(id) == (chunks0.contains_key(id) && !ids.take(
                    jj as int,
                ).contains(id)),
            forall|id: u64| #[trigger]
                st.chunks@.contains_key(id) ==> st.chunks@[id] == chunks0[id],
            st.assets == st0.assets,
            st.batches == st0.batches,
            st.next_batch_id == st0.next_batch_id,
            st.next_chunk_id == st0.next_chunk_id,
            st.authorized == st0.authorized,
            st.asset_hashes == st0.asset_hashes,
            st.chunk_hashes == st0.chunk_hashes,
            st.certified_data == st0.certified_data,
        decreases n - jj,
    {
        let id = arg.chunk_ids[jj];
        proof {
            assert(!ids.take(jj as int).contains(id)) by {
                if ids.take(jj as int).contains(id) {
                    let a = choose|a: int|
                        0 <= a < jj && #[trigger] ids.take(jj as int)[a] == id;
                    assert(ids[a] == id);
                    assert(ids[a] == ids[jj as int]);
                }
            }
            assert(st.chunks@.contains_key(id));
        }
        let chunk = match st.chunks.remove(id) {
            Some(c) => c,
            None => vstd::pervasive::unreached(),
        };
        let len: u64 = chunk.content.len() as u64;
        proof {
            assert(chunk == chunks0[id]);
            assert(len >= 1);
            assert(ids.take(jj + 1).drop_last() =~= ids.take(jj as int));
            assert(ids.take(jj + 1).last() == ids[jj as int]);
            assert(ids_total(chunks0, ids.take(jj + 1)) == ids_total(chunks0, ids.take(jj as int))
                + len);
            lemma_ids_total_take(chunks0, ids, jj + 1);
        }
        let start: u64 = reduced_total;
        let ghost oldcc = content_chunks@;
        content_chunks.push(
            ContentChunk {
                content: chunk.content,
                start_byte: start,
                end_byte: start + len - 1,
                sha256: chunk.sha256,
            },
        );
        proof {
            lemma_prefix_len_push(oldcc, content_chunks@[jj as int], jj as int);
            assert(prefix_len(content_chunks@, jj + 1) == prefix_len(oldcc, jj as int) + len);
            assert forall|i: int| 0 <= i < jj + 1 implies chunk_at_ok(content_chunks@, i) by {
                lemma_prefix_len_push(oldcc, content_chunks@[jj as int], i);
                if i < jj {
                    assert(chunk_at_ok(oldcc, i));
                } else {
                    assert(prefix_len(content_chunks@, i) == reduced_total as nat);
                }
            }
            assert forall|id2: u64|
                st.chunks@.contains_key(id2) == (chunks0.contains_key(id2) && !ids.take(
                    jj + 1,
                ).contains(id2)) by {
                if ids.take(jj + 1).contains(id2) {
                    let a = choose|a: int| 0 <= a < jj + 1 && #[trigger] ids.take(jj + 1)[a] == id2;
                    if a < jj {
                        assert(ids.take(jj as int)[a] == id2);
                        assert(ids.take(jj as int).contains(id2));
                    } else {
                        assert(id2 == id);
                    }
                } else {
                    if ids.take(jj as int).contains(id2) {
                        let a = choose|a: int| 0 <= a < jj && #[trigger] ids.take(jj as int)[a] == id2;
                        assert(ids.take(jj + 1)[a] == id2);
                        assert(ids.take(jj + 1).contains(id2));
                    }
                    if id2 == id {
                        assert(ids.take(jj + 1)[jj as int] == id);
                        assert(ids.take(jj + 1).contains(id2));
                    }
                }
            }
        }
        reduced_total = reduced_total + len;
        jj = jj + 1;
    }
    proof {
        assert(ids.take(n as int) =~= ids);
    }
    proof {
        assert forall|i: int|
            0 <= i < content_chunks@.len() implies content_chunks@[i].sha256@.len() == 32 by {
            assert(content_chunks@[i].sha256@ == chunks0[ids[i]].sha256@);
            assert(chunks0.contains_key(ids[i]));
        }
    }
    let ghost sha_given = arg.sha256 is Some;
    let sha256: Vec<u8> = match arg.sha256 {
        Some(s) => s,
        None => {
            set_chunks_to_tree(st, &arg.key, &content_chunks);
            let root = match st.chunk_hashes.get(arg.key.as_str()) {
                Some(t) => rb_root_hash(t),
                None => vstd::pervasive::unreached(),
            };
            root
        },
    };
    let enc = AssetEncoding {
        modified: now,
        content_chunks,
        certified: false,
        total_length: reduced_total,
        sha256,
    };
    let ghost st_pre = *st;
    let mut asset = match st.assets.remove(arg.key.as_str()) {
        Some(a) => a,
        None => vstd::pervasive::unreached(),
    };
    let ghost a0 = asset;
    proof {
        assert(a0 == st0.assets@[arg.key@]);
        assert(asset_ok(
            a0,
            arg.key@,
            rb_view(st0.asset_hashes),
            st0.chunk_hashes@.contains_key(arg.key@),
        ));
        assert(enc_layout_ok(enc));
    }
    asset.encodings.insert(arg.content_encoding, enc);
    let ghost a_mid = asset;
    on_asset_change(st, &arg.key, &mut asset);
    let ghost a_fin = asset;
    st.assets.insert(arg.key.clone(), asset);
    proof {
        let k = arg.key@;
        let h = rb_view(st.asset_hashes);
        let encs_mid = a_mid.encodings@;
        assert forall|k2: Seq<char>| #[trigger]
            st.assets@.contains_key(k2) implies asset_ok(
            st.assets@[k2],
            k2,
            h,
            st.chunk_hashes@.contains_key(k2),
        ) by {
            if k2 == k {
                if (match first_priority_present(encs_mid, 0) {
                    Some(p) => encs_mid[p].certified,
                    None => false,
                }) {
                    let p = first_priority_present(encs_mid, 0).unwrap();
                    lemma_fpp_contains(encs_mid, 0, p);
                    assert(p != arg.content_encoding@);
                    assert(a0.encodings@.contains_key(p) && a0.encodings@[p].certified);
                    lemma_fpp_same_dom(encs_mid, a_fin.encodings@, 0);
                    assert(h.contains_key(k));
                    assert(h[k] == a0.encodings@[p].sha256@);
                    assert(asset_ok(a_fin, k, h, st.chunk_hashes@.contains_key(k)));
                } else {
                    assert(encs_mid.contains_key(arg.content_encoding@));
                    assert(!no_encodings(encs_mid));
                    lemma_asset_ok_after_change(
                        encs_mid,
                        a_fin,
                        k,
                        rb_view(st_pre.asset_hashes),
                        h,
                        chosen_enc(a_mid),
                    );
                    assert(st.chunk_hashes@.contains_key(k));
                    assert(asset_ok(a_fin, k, h, st.chunk_hashes@.contains_key(k)));
                }
            } else {
                assert(st_pre.assets@.contains_key(k2));
                assert(st0.assets@.contains_key(k2));
                assert(st.assets@[k2] == st0.assets@[k2]);
                assert(st.chunk_hashes@.contains_key(k2) == st0.chunk_hashes@.contains_key(k2));
                lemma_asset_ok_frame(
                    st0.assets@[k2],
                    k2,
                    rb_view(st0.asset_hashes),
                    h,
                    st0.chunk_hashes@.contains_key(k2),
                );
            }
        }
        assert forall|k2: Seq<char>| #[trigger]
            rb_view(st.asset_hashes).contains_key(k2) implies st.assets@.contains_key(k2) by {
            if k2 != k {
                assert(rb_view(st0.asset_hashes).contains_key(k2));
            }
        }
        assert forall|k2: Seq<char>| #[trigger]
            st.chunk_hashes@.contains_key(k2) implies st.assets@.contains_key(k2) by {
            if k2 != k {
                assert(st0.chunk_hashes@.contains_key(k2));
            }
        }
        assert(st.assets@[k] == a_fin);
        let en = arg.content_encoding@;
        assert(a_mid.encodings@[en] == enc);
        assert(a_fin.encodings@.contains_key(en)) by {
            assert(encs_mid.contains_key(en));
            assert(!no_encodings(encs_mid));
            if (match first_priority_present(encs_mid, 0) {
                Some(p) => encs_mid[p].certified,
                None => false,
            }) {
                assert(a_fin == a_mid);
            } else {
                assert(a_fin.encodings@.contains_key(en) == encs_mid.contains_key(en));
            }
        }
        let efin = a_fin.encodings@[en];
        assert(efin.modified == enc.modified && efin.content_chunks == enc.content_chunks
            && efin.total_length == enc.total_length && efin.sha256 == enc.sha256) by {
            assert(!no_encodings(encs_mid));
            if (match first_priority_present(encs_mid, 0) {
                Some(p) => encs_mid[p].certified,
                None => false,
            }) {
                assert(a_fin == a_mid);
            } else {
                assert(a_fin.encodings@[en] == (AssetEncoding {
                    certified: en == chosen_enc(a_mid),
                    ..encs_mid[en]
                }));
            }
        }
        assert(ids.take(n as int) =~= ids);
        assert(a_fin.content_type == a0.content_type);
        let encs0 = a0.encodings@;
        let encs1 = a_fin.encodings@;
        assert(encs_mid == encs0.insert(en, enc));
        assert forall|e2: Seq<char>|
            e2 != en implies encs1.contains_key(e2) == encs0.contains_key(e2) by {
            assert(encs_mid.contains_key(e2) == encs0.contains_key(e2));
        }
        assert forall|e2: Seq<char>|
            e2 != en && #[trigger] encs1.contains_key(e2) implies encs1[e2] == (AssetEncoding {
            certified: encs1[e2].certified,
            ..encs0[e2]
        }) by {
            assert(encs_mid[e2] == encs0[e2]);
            if (match first_priority_present(encs_mid, 0) {
                Some(p) => encs_mid[p].certified,
                None => false,
            }) {
                assert(a_fin == a_mid);
            } else {
                assert(encs1[e2] == (AssetEncoding {
                    certified: e2 == chosen_enc(a_mid),
                    ..encs_mid[e2]
                }));
            }
        }
        assert(rb_view(st.asset_hashes).contains_key(k)) by {
            if (match first_priority_present(encs_mid, 0) {
                Some(p) => encs_mid[p].certified,
                None => false,
            }) {
                let p = first_priority_present(encs_mid, 0).unwrap();
                lemma_fpp_contains(encs_mid, 0, p);
            }
        }
        if !sha_given {
            {
                let t = st_pre.chunk_hashes@[k];
                assert(st_pre.chunk_hashes@.contains_key(k));
                assert(efin.sha256@ == rb_root(t));
                assert(old_tree_view(*old(st), k) == old_tree_view(st0, k));
                assert(tree_extended(old_tree_view(*old(st), k), rb_view(t), efin.content_chunks@));
                assert(st.chunk_hashes@.contains_key(k)) by {
                    if (match first_priority_present(encs_mid, 0) {
                        Some(p) => encs_mid[p].certified,
                        None => false,
                    }) {
                        assert(st.chunk_hashes == st_pre.chunk_hashes);
                    }
                }
                let t0v = old_tree_view(*old(st), k);
                let tfin = rb_view(st.chunk_hashes@[k]);
                if (match first_priority_present(encs_mid, 0) {
                    Some(p) => encs_mid[p].certified,
                    None => false,
                }) {
                    assert(st.chunk_hashes == st_pre.chunk_hashes);
                    assert(tfin == rb_view(t));
                    assert(tree_holds_chunks(t0v, tfin, efin.content_chunks@));
                } else {
                    assert(!no_encodings(encs_mid));
                    assert(old_tree_view(st_pre, k) == rb_view(t));
                    assert(tree_extended(
                        rb_view(t),
                        tfin,
                        encs_mid[chosen_enc(a_mid)].content_chunks@,
                    ));
                    assert forall|k2: Seq<char>| #[trigger]
                        t0v.contains_key(k2) implies tfin.contains_key(k2) && tfin[k2]
                        == t0v[k2] by {
                        assert(rb_view(t).contains_key(k2) && rb_view(t)[k2] == t0v[k2]);
                    }
                    assert forall|i: int|
                        0 <= i < efin.content_chunks@.len() implies tfin.contains_key(
                        #[trigger] dec_str(i as nat),
                    ) by {
                        assert(rb_view(t).contains_key(dec_str(i as nat)));
                    }
                    assert forall|i: int|
                        0 <= i < efin.content_chunks@.len() && !t0v.contains_key(
                            #[trigger] dec_str(i as nat),
                        ) implies tfin[dec_str(i as nat)] == efin.content_chunks@[i].sha256@ by {
                        assert(rb_view(t).contains_key(dec_str(i as nat)));
                        assert(rb_view(t)[dec_str(i as nat)] == efin.content_chunks@[i].sha256@);
                    }
                    assert(tree_holds_chunks(t0v, tfin, efin.content_chunks@));
                }
            }
        }
        assert forall|k2: Seq<char>|
            k2 != k ==> st.assets@.contains_key(k2) == st0.assets@.contains_key(k2) by {}
        assert(set_asset_content_post(*old(st), *st, now, arg, Ok(())));
    }
    Ok(())
}


/// Single-shot upload: creates or replaces the asset and gives the named
/// encoding one chunk holding the whole content. A digest, when supplied,
/// must match the content's hash.
pub fn store(st: &mut State, caller: &Vec<u8>, now: u64, arg: StoreArg) -> (r: Result<(), Error>)
    requires
        old(st).inv(),
        arg.content@.len() >= 1,
    ensures
        final(st).inv(),
        (match r {
            Ok(()) => {
                &&& old(st).spec_authorized(caller@)
                &&& (match arg.sha256 {
                    Some(s) => s@ == crate::tree::sha256_of(arg.content@),
                    None => true,
                })
                &&& final(st).assets@.contains_key(arg.key@)
                &&& final(st).assets@[arg.key@].content_type@ == arg.content_type@
                &&& final(st).assets@[arg.key@].encodings@.contains_key(arg.content_encoding@)
                &&& ({
                    let e = final(st).assets@[arg.key@].encodings@[arg.content_encoding@];
                    &&& e.modified == now
                    &&& e.content_chunks@.len() == 1
                    &&& e.content_chunks@[0].content@ == arg.content@
                    &&& e.total_length == arg.content@.len()
                    &&& e.sha256@ == crate::tree::sha256_of(arg.content@)
                })
                &&& rb_view(final(st).asset_hashes).contains_key(arg.key@)
                &&& (forall|k2: Seq<char>|
                    k2 != arg.key@ ==> final(st).assets@.contains_key(k2) == old(st).assets@.contains_key(k2))
                &&& (forall|k2: Seq<char>|
                    k2 != arg.key@ && #[trigger] final(st).assets@.contains_key(k2) ==> final(st).assets@[k2] == old(st).assets@[k2])
                &&& (forall|e2: Seq<char>|
                    e2 != arg.content_encoding@ ==> final(st).assets@[arg.key@].encodings@.contains_key(e2) == (old(st).assets@.contains_key(arg.key@) && old(st).assets@[arg.key@].encodings@.contains_key(e2)))
                &&& (forall|e2: Seq<char>|
                    e2 != arg.content_encoding@ && #[trigger] final(st).assets@[arg.key@].encodings@.contains_key(e2) ==> final(st).assets@[arg.key@].encodings@[e2] == (AssetEncoding {
                        certified: final(st).assets@[arg.key@].encodings@[e2].certified,
                        ..old(st).assets@[arg.key@].encodings@[e2]
                    }))
                &&& final(st).chunks == old(st).chunks
                &&& final(st).batches == old(st).batches
                &&& final(st).next_batch_id == old(st).next_batch_id
                &&& final(st).next_chunk_id == old(st).next_chunk_id
                &&& final(st).authorized == old(st).authorized
            },
            Err(e) => *final(st) == *old(st) && ((e == Error::NotAuthorized && !old(st).spec_authorized(caller@)) || (e == Error::Sha256Mismatch && old(st).spec_authorized(
                caller@,
            ) && (match arg.sha256 {
                Some(s) => s@ != crate::tree::sha256_of(arg.content@),
                None => false,
            }))),
        }),
{
    match is_authorized(st, caller) {
        Ok(()) => {},
        Err(e) => {
            return Err(e);
        },
    }
    let hash = hash_bytes(&arg.content);
    match &arg.sha256 {
        Some(s) => {
            if !bytes_eq(s.as_slice(), hash.as_slice()) {
                return Err(Error::Sha256Mismatch);
            }
        },
        None => {},
    }
    let ghost st0 = *st;
    let total: u64 = arg.content.len() as u64;
    let chunk = ContentChunk {
        content: RcBytes::from_vec(arg.content),
        start_byte: 0,
        end_byte: total - 1,
        sha256: hash.clone(),
    };
    let mut content_chunks: Vec<ContentChunk> = Vec::new();
    content_chunks.push(chunk);
    let enc = AssetEncoding {
        modified: now,
        content_chunks,
        certified: false,
        total_length: total,
        sha256: hash,
    };
    proof {
        assert(prefix_len(enc.content_chunks@, 0) == 0);
        assert(prefix_len(enc.content_chunks@, 1) == total as nat);
        assert(chunk_at_ok(enc.content_chunks@, 0));
        assert(enc_layout_ok(enc));
    }
    let removed = st.assets.remove(arg.key.as_str());
    let mut asset: Asset = match removed {
        Some(mut a) => {
            a.content_type = arg.content_type;
            a
        },
        None => Asset { content_type: arg.content_type, encodings: Table::new() },
    };
    let ghost a0 = asset;
    proof {
        if st0.assets@.contains_key(arg.key@) {
            assert(asset_ok(
                st0.assets@[arg.key@],
                arg.key@,
                rb_view(st0.asset_hashes),
                st0.chunk_hashes@.contains_key(arg.key@),
            ));
        } else {
            assert(a0.encodings@ =~= Map::<Seq<char>, AssetEncoding>::empty());
        }
    }
    asset.encodings.insert(arg.content_encoding, enc);
    let ghost a_mid = asset;
    on_asset_change(st, &arg.key, &mut asset);
    let ghost a_fin = asset;
    st.assets.insert(arg.key.clone(), asset);
    proof {
        let k = arg.key@;
        let h = rb_view(st.asset_hashes);
        let encs_mid = a_mid.encodings@;
        assert forall|k2: Seq<char>| #[trigger]
            st.assets@.contains_key(k2) implies asset_ok(
            st.assets@[k2],
            k2,
            h,
            st.chunk_hashes@.contains_key(k2),
        ) by {
            if k2 == k {
                if (match first_priority_present(encs_mid, 0) {
                    Some(p) => encs_mid[p].certified,
                    None => false,
                }) {
                    let p = first_priority_present(encs_mid, 0).unwrap();
                    lemma_fpp_contains(encs_mid, 0, p);
                    assert(st0.assets@.contains_key(k));
                    assert(p != arg.content_encoding@);
                    assert(st0.assets@[k].encodings@.contains_key(p)
                        && st0.assets@[k].encodings@[p].certified);
                    lemma_fpp_same_dom(encs_mid, a_fin.encodings@, 0);
                    assert(h.contains_key(k));
                    assert(h[k] == st0.assets@[k].encodings@[p].sha256@);
                    assert(asset_ok(a_fin, k, h, st.chunk_hashes@.contains_key(k)));
                } else {
                    assert(encs_mid.contains_key(arg.content_encoding@));
                    assert(!no_encodings(encs_mid));
                    lemma_asset_ok_after_change(
                        encs_mid,
                        a_fin,
                        k,
                        rb_view(st0.asset_hashes),
                        h,
                        chosen_enc(a_mid),
                    );
                    assert(st.chunk_hashes@.contains_key(k));
                    assert(asset_ok(a_fin, k, h, st.chunk_hashes@.contains_key(k)));
                }
            } else {
                assert(st0.assets@.contains_key(k2));
                assert(st.assets@[k2] == st0.assets@[k2]);
                assert(st.chunk_hashes@.contains_key(k2) == st0.chunk_hashes@.contains_key(k2));
                lemma_asset_ok_frame(
                    st0.assets@[k2],
                    k2,
                    rb_view(st0.asset_hashes),
                    h,
                    st0.chunk_hashes@.contains_key(k2),
                );
            }
        }
        assert forall|k2: Seq<char>| #[trigger]
            rb_view(st.asset_hashes).contains_key(k2) implies st.assets@.contains_key(k2) by {
            if k2 != k {
                assert(rb_view(st0.asset_hashes).contains_key(k2));
            }
        }
        assert forall|k2: Seq<char>| #[trigger]
            st.chunk_hashes@.contains_key(k2) implies st.assets@.contains_key(k2) by {
            if k2 != k {
                assert(st0.chunk_hashes@.contains_key(k2));
            }
        }
        assert(st.assets@[k] == a_fin);
        let enm = arg.content_encoding@;
        assert(encs_mid.contains_key(enm));
        assert(a_fin.encodings@.contains_key(enm)) by {
            assert(!no_encodings(encs_mid));
            if (match first_priority_present(encs_mid, 0) {
                Some(p) => encs_mid[p].certified,
                None => false,
            }) {
                assert(a_fin == a_mid);
            } else {
                assert(a_fin.encodings@.contains_key(enm) == encs_mid.contains_key(enm));
            }
        }
        let efin = a_fin.encodings@[enm];
        assert(efin.modified == now && efin.content_chunks == a_mid.encodings@[enm].content_chunks
            && efin.total_length == total && efin.sha256 == a_mid.encodings@[enm].sha256) by {
            assert(!no_encodings(encs_mid));
            if (match first_priority_present(encs_mid, 0) {
                Some(p) => encs_mid[p].certified,
                None => false,
            }) {
                assert(a_fin == a_mid);
            } else {
                assert(a_fin.encodings@[enm] == (AssetEncoding {
                    certified: enm == chosen_enc(a_mid),
                    ..encs_mid[enm]
                }));
            }
        }
        let encs0 = a0.encodings@;
        let encs1 = a_fin.encodings@;
        assert(encs_mid == encs0.insert(enm, enc));
        assert forall|e2: Seq<char>|
            e2 != enm implies encs1.contains_key(e2) == (st0.assets@.contains_key(k)
                && st0.assets@[k].encodings@.contains_key(e2)) by {
            assert(encs_mid.contains_key(e2) == encs0.contains_key(e2));
            if st0.assets@.contains_key(k) {
                assert(encs0 == st0.assets@[k].encodings@);
            } else {
                assert(!encs0.contains_key(e2));
            }
        }
        assert forall|e2: Seq<char>|
            e2 != enm && #[trigger] encs1.contains_key(e2) implies encs1[e2] == (AssetEncoding {
            certified: encs1[e2].certified,
            ..st0.assets@[k].encodings@[e2]
        }) by {
            assert(st0.assets@.contains_key(k));
            assert(encs_mid[e2] == st0.assets@[k].encodings@[e2]);
            if (match first_priority_present(encs_mid, 0) {
                Some(p) => encs_mid[p].certified,
                None => false,
            }) {
                assert(a_fin == a_mid);
            } else {
                assert(encs1[e2] == (AssetEncoding {
                    certified: e2 == chosen_enc(a_mid),
                    ..encs_mid[e2]
                }));
            }
        }
        assert(rb_view(st.asset_hashes).contains_key(k)) by {
            if (match first_priority_present(encs_mid, 0) {
                Some(p) => encs_mid[p].certified,
                None => false,
            }) {
                let p = first_priority_present(encs_mid, 0).unwrap();
                lemma_fpp_contains(encs_mid, 0, p);
            }
        }
        assert forall|k2: Seq<char>|
            k2 != k ==> st.assets@.contains_key(k2) == st0.assets@.contains_key(k2) by {}
    }
    Ok(())
}

/// Returns the whole body of the identity encoding, which must fit in one
/// chunk.
pub fn retrieve(st: &State, key: &String) -> (r: Result<RcBytes, Error>)
    requires
        st.inv(),
    ensures
        (match r {
            Ok(b) => st.assets@.contains_key(key@) && st.assets@[key@].encodings@.contains_key(
                "identity"@,
            ) && st.assets@[key@].encodings@["identity"@].content_chunks@.len() == 1 && b@
                == st.assets@[key@].encodings@["identity"@].content_chunks@[0].content@,
            Err(e) => (e == Error::AssetNotFound && !st.assets@.contains_key(key@)) || (e
                == Error::NoIdentityEncoding && st.assets@.contains_key(key@)
                && !st.assets@[key@].encodings@.contains_key("identity"@)) || (e
                == Error::AssetTooLarge && st.assets@.contains_key(key@)
                && st.assets@[key@].encodings@.contains_key("identity"@)
                && st.assets@[key@].encodings@["identity"@].content_chunks@.len() > 1),
        }),
{
    let asset = match st.assets.get(key.as_str()) {
        Some(a) => a,
        None => {
            return Err(Error::AssetNotFound);
        },
    };
    let id_enc = match asset.encodings.get("identity") {
        Some(e) => e,
        None => {
            return Err(Error::NoIdentityEncoding);
        },
    };
    if id_enc.content_chunks.len() > 1 {
        return Err(Error::AssetTooLarge);
    }
    proof {
        assert(enc_layout_ok(st.assets@[key@].encodings@["identity"@]));
    }
    Ok(id_enc.content_chunks[0].content.clone_ref())
}

/// The first name in the caller's list that the asset has an encoding for.
pub open spec fn first_accept(
    encs: Map<Seq<char>, AssetEncoding>,
    names: Seq<String>,
    i: int,
) -> Option<int>
    decreases names.len() - i,
{
    if i < 0 || i >= names.len() {
        None
    } else if encs.contains_key(names[i]@) {
        Some(i)
    } else {
        first_accept(encs, names, i + 1)
    }
}

/// Returns the first chunk, length and digest of the first encoding of the
/// caller's list that the asset holds.
pub fn get(st: &State, arg: &GetArg) -> (r: Result<EncodedAsset, Error>)
    requires
        st.inv(),
    ensures
        (match r {
            Ok(ea) => st.assets@.contains_key(arg.key@) && (match first_accept(
                st.assets@[arg.key@].encodings@,
                arg.accept_encodings@,
                0,
            ) {
                Some(i) => {
                    let e = st.assets@[arg.key@].encodings@[arg.accept_encodings@[i]@];
                    &&& ea.content@ == e.content_chunks@[0].content@
                    &&& ea.content_type@ == st.assets@[arg.key@].content_type@
                    &&& ea.content_encoding@ == arg.accept_encodings@[i]@
                    &&& ea.total_length == e.total_length
                    &&& (match ea.sha256 {
                        Some(s) => s@ == e.sha256@,
                        None => false,
                    })
                },
                None => false,
            }),
            Err(e) => (e == Error::AssetNotFound && !st.assets@.contains_key(arg.key@)) || (e
                == Error::NoSuchEncoding && st.assets@.contains_key(arg.key@) && first_accept(
                st.assets@[arg.key@].encodings@,
                arg.accept_encodings@,
                0,
            ) is None),
        }),
{
    let asset = match st.assets.get(arg.key.as_str()) {
        Some(a) => a,
        None => {
            return Err(Error::AssetNotFound);
        },
    };
    let ghost encs = asset.encodings@;
    let mut i: usize = 0;
    while i < arg.accept_encodings.len()
        invariant
            st.inv(),
            i <= arg.accept_encodings@.len(),
            st.assets@.contains_key(arg.key@),
            *asset == st.assets@[arg.key@],
            encs == asset.encodings@,
            first_accept(encs, arg.accept_encodings@, 0) == first_accept(
                encs,
                arg.accept_encodings@,
                i as int,
            ),
        decreases arg.accept_encodings@.len() - i,
    {
        let name = &arg.accept_encodings[i];
        let found = asset.encodings.get(name.as_str());
        match found {
            Some(e) => {
                proof {
                    assert(first_accept(encs, arg.accept_encodings@, i as int) == Some(i as int));
                    assert(enc_layout_ok(encs[arg.accept_encodings@[i as int]@]));
                }
                return Ok(
                    EncodedAsset {
                        content: e.content_chunks[0].content.clone_ref(),
                        content_type: asset.content_type.clone(),
                        content_encoding: name.clone(),
                        total_length: e.total_length,
                        sha256: Some(e.sha256.clone()),
                    },
                );
            },
            None => {},
        }
        i = i + 1;
    }
    Err(Error::NoSuchEncoding)
}

/// Returns one chunk of an encoding; a supplied digest must match the
/// encoding's whole digest, and the index must be in bounds.
pub fn get_chunk(st: &State, arg: &GetChunkArg) -> (r: Result<GetChunkResponse, Error>)
    requires
        st.inv(),
    ensures
        (match r {
            Ok(resp) => st.assets@.contains_key(arg.key@)
                && st.assets@[arg.key@].encodings@.contains_key(arg.content_encoding@) && ({
                let e = st.assets@[arg.key@].encodings@[arg.content_encoding@];
                &&& (match arg.sha256 {
                    Some(s) => s@ == e.sha256@,
                    None => true,
                })
                &&& arg.index < e.content_chunks@.len()
                &&& resp.content@ == e.content_chunks@[arg.index as int].content@
            }),
            Err(er) => (er == Error::AssetNotFound && !st.assets@.contains_key(arg.key@)) || (er
                == Error::NoSuchEncoding && st.assets@.contains_key(arg.key@)
                && !st.assets@[arg.key@].encodings@.contains_key(arg.content_encoding@)) || ({
                let e = st.assets@[arg.key@].encodings@[arg.content_encoding@];
                (er == Error::Sha256Mismatch && st.assets@.contains_key(arg.key@)
                    && st.assets@[arg.key@].encodings@.contains_key(arg.content_encoding@) && (
                match arg.sha256 {
                    Some(s) => s@ != e.sha256@,
                    None => false,
                })) || (er == Error::ChunkIndexOutOfBounds && st.assets@.contains_key(arg.key@)
                    && st.assets@[arg.key@].encodings@.contains_key(arg.content_encoding@) && (
                match arg.sha256 {
                    Some(s) => s@ == e.sha256@,
                    None => true,
                }) && arg.index >= e.content_chunks@.len())
            }),
        }),
{
    let asset = match st.assets.get(arg.key.as_str()) {
        Some(a) => a,
        None => {
            return Err(Error::AssetNotFound);
        },
    };
    let enc = match asset.encodings.get(arg.content_encoding.as_str()) {
        Some(e) => e,
        None => {
            return Err(Error::NoSuchEncoding);
        },
    };
    match &arg.sha256 {
        Some(s) => {
            if !bytes_eq(s.as_slice(), enc.sha256.as_slice()) {
                return Err(Error::Sha256Mismatch);
            }
        },
        None => {},
    }
    let nchunks = enc.content_chunks.len();
    if arg.index >= nchunks as u64 {
        return Err(Error::ChunkIndexOutOfBounds);
    }
    let idx: usize = arg.index as usize;
    Ok(GetChunkResponse { content: enc.content_chunks[idx].content.clone_ref() })
}


/// Enumerates an encoding's chunk descriptors; an absent encoding yields an
/// empty listing rather than an error.
pub fn get_chunks_info(st: &State, arg: &GetChunksInfoArg) -> (r: Result<ChunksInfoResponse, Error>)
    requires
        st.inv(),
    ensures
        (match r {
            Ok(resp) => st.assets@.contains_key(arg.key@) && (if st.assets@[arg.key@].encodings@.contains_key(arg.content_encoding@) {
                let e = st.assets@[arg.key@].encodings@[arg.content_encoding@];
                &&& resp.total_length == e.total_length
                &&& resp.chunks@.len() == e.content_chunks@.len()
                &&& (forall|i: int|
                    0 <= i < resp.chunks@.len() ==> resp.chunks@[i].chunk_id == i
                        && resp.chunks@[i].chunk_length == e.content_chunks@[i].content@.len())
            } else {
                resp.total_length == 0 && resp.chunks@.len() == 0
            }),
            Err(e) => e == Error::AssetNotFound && !st.assets@.contains_key(arg.key@),
        }),
{
    let asset = match st.assets.get(arg.key.as_str()) {
        Some(a) => a,
        None => {
            return Err(Error::AssetNotFound);
        },
    };
    let enc = match asset.encodings.get(arg.content_encoding.as_str()) {
        Some(e) => e,
        None => {
            return Ok(ChunksInfoResponse { total_length: 0, chunks: Vec::new() });
        },
    };
    proof {
        assert(enc_layout_ok(st.assets@[arg.key@].encodings@[arg.content_encoding@]));
    }
    let mut chunks: Vec<ChunkInfo> = Vec::new();
    let mut total: u64 = 0;
    let mut i: usize = 0;
    let n = enc.content_chunks.len();
    while i < n
        invariant
            st.inv(),
            i <= n,
            n == enc.content_chunks@.len(),
            enc_layout_ok(*enc),
            chunks@.len() == i,
            total as nat == prefix_len(enc.content_chunks@, i as int),
            forall|j: int|
                0 <= j < i ==> chunks@[j].chunk_id == j && chunks@[j].chunk_length
                    == enc.content_chunks@[j].content@.len(),
        decreases n - i,
    {
        proof {
            assert(prefix_len(enc.content_chunks@, i + 1) == prefix_len(
                enc.content_chunks@,
                i as int,
            ) + enc.content_chunks@[i as int].content@.len());
            lemma_prefix_len_bound(enc.content_chunks@, i + 1, n as int);
        }
        let chunk_length: u64 = enc.content_chunks[i].content.len() as u64;
        total = total + chunk_length;
        chunks.push(ChunkInfo { chunk_id: i as u64, chunk_length });
        i = i + 1;
    }
    proof {
        assert(total == enc.total_length);
    }
    Ok(ChunksInfoResponse { total_length: total, chunks })
}

/// A prefix of the chunk lengths never exceeds the whole sum.
pub proof fn lemma_prefix_len_bound(chunks: Seq<ContentChunk>, i: int, n: int)
    requires
        0 <= i <= n <= chunks.len(),
    ensures
        prefix_len(chunks, i) <= prefix_len(chunks, n),
    decreases n - i,
{
    if i < n {
        lemma_prefix_len_bound(chunks, i + 1, n);
    }
}

/// Lexicographic order on byte strings.
pub open spec fn bytes_le(a: Seq<u8>, b: Seq<u8>) -> bool
    decreases a.len(),
{
    if a.len() == 0 {
        true
    } else if b.len() == 0 {
        false
    } else if a[0] < b[0] {
        true
    } else if a[0] > b[0] {
        false
    } else {
        bytes_le(a.drop_first(), b.drop_first())
    }
}

/// The byte order is total.
pub proof fn lemma_bytes_le_total(a: Seq<u8>, b: Seq<u8>)
    ensures
        bytes_le(a, b) || bytes_le(b, a),
    decreases a.len(),
{
    if a.len() > 0 && b.len() > 0 && a[0] == b[0] {
        lemma_bytes_le_total(a.drop_first(), b.drop_first());
    }
}

/// The order listings are sorted by: names compared on their UTF-8 bytes.
pub open spec fn name_le(a: Seq<char>, b: Seq<char>) -> bool {
    bytes_le(vstd::utf8::encode_utf8(a), vstd::utf8::encode_utf8(b))
}

/// Lexicographic byte order on names, used to sort listings.
fn str_le(a: &str, b: &str) -> (r: bool)
    ensures
        r == name_le(a@, b@),
{
    let ab = a.as_bytes();
    let bb = b.as_bytes();
    let mut i: usize = 0;
    proof {
        assert(ab@.skip(0) =~= ab@);
        assert(bb@.skip(0) =~= bb@);
    }
    while i < ab.len() && i < bb.len()
        invariant
            i <= ab@.len(),
            i <= bb@.len(),
            ab@ == a.spec_bytes(),
            bb@ == b.spec_bytes(),
            bytes_le(ab@, bb@) == bytes_le(ab@.skip(i as int), bb@.skip(i as int)),
        decreases ab@.len() - i,
    {
        proof {
            assert(ab@.skip(i as int)[0] == ab@[i as int]);
            assert(bb@.skip(i as int)[0] == bb@[i as int]);
            assert(ab@.skip(i as int).drop_first() =~= ab@.skip(i + 1));
            assert(bb@.skip(i as int).drop_first() =~= bb@.skip(i + 1));
        }
        if ab[i] < bb[i] {
            return true;
        }
        if ab[i] > bb[i] {
            return false;
        }
        i = i + 1;
    }
    proof {
        if i >= ab@.len() {
            assert(ab@.skip(i as int) =~= Seq::<u8>::empty());
        } else {
            assert(bb@.skip(i as int) =~= Seq::<u8>::empty());
            assert(ab@.skip(i as int).len() > 0);
        }
    }
    ab.len() <= bb.len()
}

/// One listed encoding detail describes an encoding the asset really has.
pub open spec fn detail_ok(encs: Map<Seq<char>, AssetEncoding>, d: AssetEncodingDetails) -> bool {
    &&& encs.contains_key(d.content_encoding@)
    &&& (match d.sha256 {
        Some(s) => s@ == encs[d.content_encoding@].sha256@,
        None => false,
    })
    &&& d.length == encs[d.content_encoding@].total_length
    &&& d.modified == encs[d.content_encoding@].modified
}

/// Lists every asset with one descriptor per encoding, sorted by encoding
/// name; the descriptors are pairwise distinct and cover the asset's
/// encodings exactly.
#[verifier::rlimit(40)]
pub fn list(st: &State) -> (r: Vec<AssetDetails>)
    requires
        st.inv(),
    ensures
        r@.len() == st.assets.entries@.len(),
        (forall|i: int|
            0 <= i < r@.len() ==> r@[i].key@ == st.assets.entries@[i].0@ && r@[i].content_type@
                == st.assets.entries@[i].1.content_type@ && r@[i].encodings@.len()
                == st.assets.entries@[i].1.encodings.entries@.len() && (forall|j: int|
                0 <= j < r@[i].encodings@.len() ==> detail_ok(
                    st.assets.entries@[i].1.encodings@,
                    #[trigger] r@[i].encodings@[j],
                )) && (forall|j1: int, j2: int|
                0 <= j1 < j2 < r@[i].encodings@.len()
                    ==> (#[trigger] r@[i].encodings@[j1]).content_encoding@
                    != (#[trigger] r@[i].encodings@[j2]).content_encoding@) && (forall|j: int|
                0 <= j < r@[i].encodings@.len() - 1 ==> name_le(
                    (#[trigger] r@[i].encodings@[j]).content_encoding@,
                    r@[i].encodings@[j + 1].content_encoding@,
                ))),
{
    let mut out: Vec<AssetDetails> = Vec::new();
    let mut i: usize = 0;
    let n = st.assets.len();
    while i < n
        invariant
            st.inv(),
            i <= n,
            n == st.assets.entries@.len(),
            out@.len() == i,
            forall|i2: int|
                0 <= i2 < i ==> out@[i2].key@ == st.assets.entries@[i2].0@ && out@[i2].content_type@
                    == st.assets.entries@[i2].1.content_type@ && out@[i2].encodings@.len()
                    == st.assets.entries@[i2].1.encodings.entries@.len() && (forall|j: int|
                    0 <= j < out@[i2].encodings@.len() ==> detail_ok(
                        st.assets.entries@[i2].1.encodings@,
                        #[trigger] out@[i2].encodings@[j],
                    )) && (forall|j1: int, j2: int|
                    0 <= j1 < j2 < out@[i2].encodings@.len()
                        ==> (#[trigger] out@[i2].encodings@[j1]).content_encoding@
                        != (#[trigger] out@[i2].encodings@[j2]).content_encoding@) && (forall|
                    j: int,
                |
                    0 <= j < out@[i2].encodings@.len() - 1 ==> name_le(
                        (#[trigger] out@[i2].encodings@[j]).content_encoding@,
                        out@[i2].encodings@[j + 1].content_encoding@,
                    )),
        decreases n - i,
    {
        let key = st.assets.key_at(i).clone();
        let asset = st.assets.val_at(i);
        proof {
            st.assets.lemma_entry_in_view(i as int);
            assert(asset_ok(
                *asset,
                key@,
                rb_view(st.asset_hashes),
                st.chunk_hashes@.contains_key(key@),
            ));
        }
        let mut details: Vec<AssetEncodingDetails> = Vec::new();
        let mut j: usize = 0;
        let m = asset.encodings.len();
        while j < m
            invariant
                j <= m,
                m == asset.encodings.entries@.len(),
                asset.encodings.wf(),
                details@.len() == j,
                forall|j2: int|
                    0 <= j2 < j ==> detail_ok(asset.encodings@, #[trigger] details@[j2])
                        && details@[j2].content_encoding@ == asset.encodings.entries@[j2].0@,
            decreases m - j,
        {
            let ename = asset.encodings.key_at(j).clone();
            let e = asset.encodings.val_at(j);
            proof {
                asset.encodings.lemma_entry_in_view(j as int);
            }
            details.push(
                AssetEncodingDetails {
                    content_encoding: ename,
                    sha256: Some(e.sha256.clone()),
                    length: e.total_length,
                    modified: e.modified,
                },
            );
            j = j + 1;
        }
        proof {
            assert forall|j1: int, j2: int|
                0 <= j1 < j2 < details@.len()
                    implies (#[trigger] details@[j1]).content_encoding@
                != (#[trigger] details@[j2]).content_encoding@ by {
                assert(asset.encodings.entries@[j1].0@ != asset.encodings.entries@[j2].0@);
            }
        }
        // order the descriptors by encoding name
        let mut sorted: Vec<AssetEncodingDetails> = Vec::new();
        while details.len() > 0
            invariant
                asset.encodings.wf(),
                forall|j2: int|
                    0 <= j2 < details@.len() ==> detail_ok(
                        asset.encodings@,
                        #[trigger] details@[j2],
                    ),
                forall|j2: int|
                    0 <= j2 < sorted@.len() ==> detail_ok(asset.encodings@, #[trigger] sorted@[j2]),
                sorted@.len() + details@.len() == m,
                forall|j1: int, j2: int|
                    0 <= j1 < j2 < details@.len()
                        ==> (#[trigger] details@[j1]).content_encoding@
                        != (#[trigger] details@[j2]).content_encoding@,
                forall|j1: int, j2: int|
                    0 <= j1 < j2 < sorted@.len() ==> (#[trigger] sorted@[j1]).content_encoding@
                        != (#[trigger] sorted@[j2]).content_encoding@,
                forall|j1: int, j2: int|
                    0 <= j1 < sorted@.len() && 0 <= j2 < details@.len()
                        ==> (#[trigger] sorted@[j1]).content_encoding@
                        != (#[trigger] details@[j2]).content_encoding@,
                forall|j2: int|
                    0 <= j2 < sorted@.len() - 1 ==> name_le(
                        (#[trigger] sorted@[j2]).content_encoding@,
                        sorted@[j2 + 1].content_encoding@,
                    ),
            decreases details@.len(),
        {
            let ghost olddet = details@;
            let d = details.remove(0);
            proof {
                assert(d == olddet[0]);
                assert forall|j1: int, j2: int|
                    0 <= j1 < j2 < details@.len()
                        implies (#[trigger] details@[j1]).content_encoding@
                    != (#[trigger] details@[j2]).content_encoding@ by {
                    assert(details@[j1] == olddet[j1 + 1]);
                    assert(details@[j2] == olddet[j2 + 1]);
                }
                assert forall|j1: int, j2: int|
                    0 <= j1 < sorted@.len() && 0 <= j2 < details@.len()
                        implies (#[trigger] sorted@[j1]).content_encoding@
                    != (#[trigger] details@[j2]).content_encoding@ by {
                    assert(details@[j2] == olddet[j2 + 1]);
                }
                assert forall|j1: int|
                    0 <= j1 < sorted@.len() implies (#[trigger] sorted@[j1]).content_encoding@
                    != d.content_encoding@ by {
                    assert(d == olddet[0]);
                }
            }
            let mut pos: usize = 0;
            while pos < sorted.len() && str_le(
                sorted[pos].content_encoding.as_str(),
                d.content_encoding.as_str(),
            )
                invariant
                    pos <= sorted@.len(),
                    forall|j2: int|
                        0 <= j2 < pos ==> name_le(
                            (#[trigger] sorted@[j2]).content_encoding@,
                            d.content_encoding@,
                        ),
                decreases sorted@.len() - pos,
            {
                pos = pos + 1;
            }
            proof {
                if pos < sorted@.len() {
                    lemma_bytes_le_total(
                        vstd::utf8::encode_utf8(sorted@[pos as int].content_encoding@),
                        vstd::utf8::encode_utf8(d.content_encoding@),
                    );
                    assert(name_le(d.content_encoding@, sorted@[pos as int].content_encoding@));
                }
            }
            let ghost olds = sorted@;
            sorted.insert(pos, d);
            proof {
                assert forall|j2: int|
                    0 <= j2 < sorted@.len() implies detail_ok(
                    asset.encodings@,
                    #[trigger] sorted@[j2],
                ) by {
                    if j2 < pos {
                        assert(sorted@[j2] == olds[j2]);
                    } else if j2 == pos {
                        assert(sorted@[j2] == d);
                    } else {
                        assert(sorted@[j2] == olds[j2 - 1]);
                    }
                }
                assert forall|j1: int, j2: int|
                    0 <= j1 < j2 < sorted@.len() implies (#[trigger] sorted@[j1]).content_encoding@
                    != (#[trigger] sorted@[j2]).content_encoding@ by {
                    let o1 = if j1 < pos {
                        olds[j1]
                    } else if j1 == pos {
                        d
                    } else {
                        olds[j1 - 1]
                    };
                    let o2 = if j2 < pos {
                        olds[j2]
                    } else if j2 == pos {
                        d
                    } else {
                        olds[j2 - 1]
                    };
                    assert(sorted@[j1] == o1 && sorted@[j2] == o2);
                }
                assert forall|j2: int|
                    0 <= j2 < sorted@.len() - 1 implies name_le(
                    (#[trigger] sorted@[j2]).content_encoding@,
                    sorted@[j2 + 1].content_encoding@,
                ) by {
                    if j2 + 1 < pos {
                        assert(sorted@[j2] == olds[j2] && sorted@[j2 + 1] == olds[j2 + 1]);
                    } else if j2 + 1 == pos {
                        assert(sorted@[j2] == olds[j2] && sorted@[j2 + 1] == d);
                    } else if j2 == pos {
                        assert(sorted@[j2] == d && sorted@[j2 + 1] == olds[j2]);
                        assert(name_le(d.content_encoding@, olds[j2].content_encoding@));
                    } else {
                        assert(sorted@[j2] == olds[j2 - 1] && sorted@[j2 + 1] == olds[j2]);
                    }
                }
            }
        }
        out.push(AssetDetails { key, content_type: asset.content_type.clone(), encodings: sorted });
        i = i + 1;
    }
    out
}

/// The batches whose deadline is still ahead.
pub open spec fn live_batch(batches: Map<u64, Batch>, id: u64, now: u64) -> bool {
    batches.contains_key(id) && batches[id].expires_at > now
}

/// Allocates the next batch id and sweeps out expired batches together with
/// their staged chunks. This sweep is the only garbage collection.
pub fn create_batch(st: &mut State, caller: &Vec<u8>, now: u64) -> (r: Result<
    CreateBatchResponse,
    Error,
>)
    requires
        old(st).inv(),
        old(st).next_batch_id < u64::MAX,
        now <= u64::MAX - BATCH_EXPIRY_NANOS,
    ensures
        final(st).inv(),
        (match r {
            Ok(resp) => {
                let bat1 = old(st).batches@.insert(
                    old(st).next_batch_id,
                    Batch { expires_at: (now + BATCH_EXPIRY_NANOS) as u64 },
                );
                &&& old(st).spec_authorized(caller@)
                &&& resp.batch_id == old(st).next_batch_id
                &&& final(st).next_batch_id == old(st).next_batch_id + 1
                &&& (forall|id: u64|
                    final(st).batches@.contains_key(id) == live_batch(bat1, id, now))
                &&& (forall|id: u64| #[trigger]
                    final(st).batches@.contains_key(id) ==> final(st).batches@[id] == bat1[id])
                &&& (forall|id: u64|
                    final(st).chunks@.contains_key(id) == (old(st).chunks@.contains_key(id)
                        && live_batch(bat1, old(st).chunks@[id].batch_id, now)))
                &&& (forall|id: u64| #[trigger]
                    final(st).chunks@.contains_key(id) ==> final(st).chunks@[id] == old(st).chunks@[id])
                &&& final(st).assets == old(st).assets
                &&& final(st).asset_hashes == old(st).asset_hashes
                &&& final(st).chunk_hashes == old(st).chunk_hashes
                &&& final(st).certified_data == old(st).certified_data
                &&& final(st).authorized == old(st).authorized
                &&& final(st).next_chunk_id == old(st).next_chunk_id
            },
            Err(e) => e == Error::NotAuthorized && !old(st).spec_authorized(caller@) && *final(st)
                == *old(st),
        }),
{
    match is_authorized(st, caller) {
        Ok(()) => {},
        Err(e) => {
            return Err(e);
        },
    }
    let batch_id = st.next_batch_id;
    st.next_batch_id = st.next_batch_id + 1;
    st.batches.insert(batch_id, Batch { expires_at: now + BATCH_EXPIRY_NANOS });
    let ghost st1 = *st;
    let ghost bat1 = st.batches@;
    // drop every chunk whose batch is gone or past its deadline
    let mut dead_chunks: Vec<u64> = Vec::new();
    let mut i: usize = 0;
    let n = st.chunks.len();
    while i < n
        invariant
            *st == st1,
            bat1 == st1.batches@,
            st.inv(),
            i <= n,
            n == st.chunks.entries@.len(),
            forall|j: int|
                0 <= j < dead_chunks@.len() ==> st.chunks@.contains_key(
                    #[trigger] dead_chunks@[j],
                ) && !live_batch(bat1, st.chunks@[dead_chunks@[j]].batch_id, now),
            forall|j: int|
                0 <= j < i ==> (dead_chunks@.contains((#[trigger] st.chunks.entries@[j]).0) <==> !live_batch(
                    bat1,
                    st.chunks.entries@[j].1.batch_id,
                    now,
                )),
        decreases n - i,
    {
        let cid = st.chunks.key_at(i);
        let c = st.chunks.val_at(i);
        let alive = match st.batches.get(c.batch_id) {
            Some(b) => b.expires_at > now,
            None => false,
        };
        let ghost olddead = dead_chunks@;
        proof {
            st.chunks.lemma_entry_in_view(i as int);
        }
        if !alive {
            dead_chunks.push(cid);
            proof {
                assert forall|j: int|
                    0 <= j < i + 1 implies (dead_chunks@.contains(
                    (#[trigger] st.chunks.entries@[j]).0,
                ) <==> !live_batch(bat1, st.chunks.entries@[j].1.batch_id, now)) by {
                    let kj = st.chunks.entries@[j].0;
                    if j < i {
                        assert(kj != cid);
                        if olddead.contains(kj) {
                            let a = choose|a: int| 0 <= a < olddead.len() && olddead[a] == kj;
                            assert(dead_chunks@[a] == kj);
                            assert(dead_chunks@.contains(kj));
                        }
                        if dead_chunks@.contains(kj) {
                            let a = choose|a: int|
                                0 <= a < dead_chunks@.len() && dead_chunks@[a] == kj;
                            assert(a < olddead.len());
                            assert(olddead.contains(kj));
                        }
                    } else {
                        assert(kj == cid);
                        assert(dead_chunks@[olddead.len() as int] == cid);
                        assert(dead_chunks@.contains(cid));
                    }
                }
            }
        } else {
            proof {
                if dead_chunks@.contains(cid) {
                    let j = choose|j: int|
                        0 <= j < dead_chunks@.len() && dead_chunks@[j] == cid;
                    assert(!live_batch(bat1, st.chunks@[cid].batch_id, now));
                }
                assert forall|j: int|
                    0 <= j < i + 1 implies (dead_chunks@.contains(
                    (#[trigger] st.chunks.entries@[j]).0,
                ) <==> !live_batch(bat1, st.chunks.entries@[j].1.batch_id, now)) by {
                }
            }
        }
        i = i + 1;
    }
    let mut r: usize = 0;
    let nd = dead_chunks.len();
    while r < nd
        invariant
            st.batches == st1.batches,
            bat1 == st1.batches@,
            st.assets == st1.assets,
            st.asset_hashes == st1.asset_hashes,
            st.chunk_hashes == st1.chunk_hashes,
            st.certified_data == st1.certified_data,
            st.authorized == st1.authorized,
            st.next_batch_id == st1.next_batch_id,
            st.next_chunk_id == st1.next_chunk_id,
            st.chunks.wf(),
            r <= nd,
            nd == dead_chunks@.len(),
            forall|id: u64|
                st.chunks@.contains_key(id) == (st1.chunks@.contains_key(id)
                    && !dead_chunks@.take(r as int).contains(id)),
            forall|id: u64| #[trigger]
                st.chunks@.contains_key(id) ==> st.chunks@[id] == st1.chunks@[id],
            forall|j: int|
                0 <= j < dead_chunks@.len() ==> st1.chunks@.contains_key(
                    #[trigger] dead_chunks@[j],
                ) && !live_batch(bat1, st1.chunks@[dead_chunks@[j]].batch_id, now),
            forall|j: int|
                0 <= j < st1.chunks.entries@.len() ==> (dead_chunks@.contains(
                    (#[trigger] st1.chunks.entries@[j]).0,
                ) <==> !live_batch(bat1, st1.chunks.entries@[j].1.batch_id, now)),
        decreases nd - r,
    {
        let cid = dead_chunks[r];
        let _ = st.chunks.remove(cid);
        proof {
            assert forall|id: u64|
                st.chunks@.contains_key(id) == (st1.chunks@.contains_key(id)
                    && !dead_chunks@.take(r + 1).contains(id)) by {
                if dead_chunks@.take(r + 1).contains(id) {
                    let a = choose|a: int|
                        0 <= a < r + 1 && #[trigger] dead_chunks@.take(r + 1)[a] == id;
                    if a < r {
                        assert(dead_chunks@.take(r as int)[a] == id);
                        assert(dead_chunks@.take(r as int).contains(id));
                    } else {
                        assert(id == cid);
                    }
                } else {
                    if dead_chunks@.take(r as int).contains(id) {
                        let a = choose|a: int|
                            0 <= a < r && #[trigger] dead_chunks@.take(r as int)[a] == id;
                        assert(dead_chunks@.take(r + 1)[a] == id);
                        assert(dead_chunks@.take(r + 1).contains(id));
                    }
                    if id == cid {
                        assert(dead_chunks@.take(r + 1)[r as int] == id);
                        assert(dead_chunks@.take(r + 1).contains(id));
                    }
                }
            }
        }
        r = r + 1;
    }
    // drop the expired batches themselves
    let mut dead_batches: Vec<u64> = Vec::new();
    let ghost st2 = *st;
    let mut bi: usize = 0;
    let bn = st.batches.len();
    while bi < bn
        invariant
            *st == st2,
            bi <= bn,
            bn == st.batches.entries@.len(),
            st.batches.wf(),
            forall|j: int|
                0 <= j < dead_batches@.len() ==> st.batches@.contains_key(
                    #[trigger] dead_batches@[j],
                ) && st.batches@[dead_batches@[j]].expires_at <= now,
            forall|j: int|
                0 <= j < bi ==> (dead_batches@.contains((#[trigger] st.batches.entries@[j]).0) <==> st.batches.entries@[j].1.expires_at
                    <= now),
        decreases bn - bi,
    {
        let bid = st.batches.key_at(bi);
        let b = st.batches.val_at(bi);
        let ghost olddead = dead_batches@;
        proof {
            st.batches.lemma_entry_in_view(bi as int);
        }
        if b.expires_at <= now {
            dead_batches.push(bid);
            proof {
                assert forall|j: int|
                    0 <= j < bi + 1 implies (dead_batches@.contains(
                    (#[trigger] st.batches.entries@[j]).0,
                ) <==> st.batches.entries@[j].1.expires_at <= now) by {
                    let kj = st.batches.entries@[j].0;
                    if j < bi {
                        assert(kj != bid);
                        if olddead.contains(kj) {
                            let a = choose|a: int| 0 <= a < olddead.len() && olddead[a] == kj;
                            assert(dead_batches@[a] == kj);
                            assert(dead_batches@.contains(kj));
                        }
                        if dead_batches@.contains(kj) {
                            let a = choose|a: int|
                                0 <= a < dead_batches@.len() && dead_batches@[a] == kj;
                            assert(a < olddead.len());
                            assert(olddead.contains(kj));
                        }
                    } else {
                        assert(kj == bid);
                        assert(dead_batches@[olddead.len() as int] == bid);
                        assert(dead_batches@.contains(bid));
                    }
                }
            }
        } else {
            proof {
                if dead_batches@.contains(bid) {
                    let j = choose|j: int|
                        0 <= j < dead_batches@.len() && dead_batches@[j] == bid;
                    assert(st.batches@[bid].expires_at <= now);
                }
                assert forall|j: int|
                    0 <= j < bi + 1 implies (dead_batches@.contains(
                    (#[trigger] st.batches.entries@[j]).0,
                ) <==> st.batches.entries@[j].1.expires_at <= now) by {
                }
            }
        }
        bi = bi + 1;
    }
    let mut br: usize = 0;
    let bnd = dead_batches.len();
    while br < bnd
        invariant
            st.chunks == st2.chunks,
            st.assets == st2.assets,
            st.asset_hashes == st2.asset_hashes,
            st.chunk_hashes == st2.chunk_hashes,
            st.certified_data == st2.certified_data,
            st.authorized == st2.authorized,
            st.next_batch_id == st2.next_batch_id,
            st.next_chunk_id == st2.next_chunk_id,
            st.batches.wf(),
            br <= bnd,
            bnd == dead_batches@.len(),
            forall|id: u64|
                st.batches@.contains_key(id) == (st2.batches@.contains_key(id)
                    && !dead_batches@.take(br as int).contains(id)),
            forall|id: u64| #[trigger]
                st.batches@.contains_key(id) ==> st.batches@[id] == st2.batches@[id],
            forall|j: int|
                0 <= j < dead_batches@.len() ==> st2.batches@.contains_key(
                    #[trigger] dead_batches@[j],
                ) && st2.batches@[dead_batches@[j]].expires_at <= now,
            forall|j: int|
                0 <= j < st2.batches.entries@.len() ==> (dead_batches@.contains(
                    (#[trigger] st2.batches.entries@[j]).0,
                ) <==> st2.batches.entries@[j].1.expires_at <= now),
        decreases bnd - br,
    {
        let bid = dead_batches[br];
        let _ = st.batches.remove(bid);
        proof {
            assert forall|id: u64|
                st.batches@.contains_key(id) == (st2.batches@.contains_key(id)
                    && !dead_batches@.take(br + 1).contains(id)) by {
                if dead_batches@.take(br + 1).contains(id) {
                    let a = choose|a: int|
                        0 <= a < br + 1 && #[trigger] dead_batches@.take(br + 1)[a] == id;
                    if a < br {
                        assert(dead_batches@.take(br as int)[a] == id);
                        assert(dead_batches@.take(br as int).contains(id));
                    } else {
                        assert(id == bid);
                    }
                } else {
                    if dead_batches@.take(br as int).contains(id) {
                        let a = choose|a: int|
                            0 <= a < br && #[trigger] dead_batches@.take(br as int)[a] == id;
                        assert(dead_batches@.take(br + 1)[a] == id);
                        assert(dead_batches@.take(br + 1).contains(id));
                    }
                    if id == bid {
                        assert(dead_batches@.take(br + 1)[br as int] == id);
                        assert(dead_batches@.take(br + 1).contains(id));
                    }
                }
            }
        }
        br = br + 1;
    }
    proof {
        assert(dead_chunks@.take(nd as int) =~= dead_chunks@);
        assert(dead_batches@.take(bnd as int) =~= dead_batches@);
        assert forall|id: u64|
            st.batches@.contains_key(id) == live_batch(bat1, id, now) by {
            if st2.batches@.contains_key(id) {
                let j = st2.batches.idx_of(id);
                st2.batches.lemma_entry_in_view(j);
                assert(st2.batches.entries@[j].0 == id);
            }
        }
        assert forall|id: u64|
            st.chunks@.contains_key(id) == (st1.chunks@.contains_key(id) && live_batch(
                bat1,
                st1.chunks@[id].batch_id,
                now,
            )) by {
            if st1.chunks@.contains_key(id) {
                let j = st1.chunks.idx_of(id);
                st1.chunks.lemma_entry_in_view(j);
                assert(st1.chunks.entries@[j].0 == id);
            }
        }
        assert(st.assets == old(st).assets);
        assert(st.asset_hashes == old(st).asset_hashes);
        assert(st.chunk_hashes == old(st).chunk_hashes);
        assert(st.certified_data == old(st).certified_data);
        assert(st1.chunks == old(st).chunks);
        assert forall|k: Seq<char>| #[trigger]
            st.assets@.contains_key(k) implies asset_ok(
            st.assets@[k],
            k,
            rb_view(st.asset_hashes),
            st.chunk_hashes@.contains_key(k),
        ) by {
            assert(old(st).assets@.contains_key(k));
            assert(asset_ok(
                old(st).assets@[k],
                k,
                rb_view(old(st).asset_hashes),
                old(st).chunk_hashes@.contains_key(k),
            ));
        }
        assert forall|k: Seq<char>| #[trigger]
            rb_view(st.asset_hashes).contains_key(k) implies st.assets@.contains_key(k) by {
            assert(rb_view(old(st).asset_hashes).contains_key(k));
        }
        assert forall|k: Seq<char>| #[trigger]
            st.chunk_hashes@.contains_key(k) implies st.assets@.contains_key(k) by {
            assert(old(st).chunk_hashes@.contains_key(k));
        }
        assert forall|id: u64| #[trigger]
            st.chunks@.contains_key(id) implies st.chunks@[id].sha256@.len() == 32 by {
            assert(st1.chunks@.contains_key(id) && st.chunks@[id] == st1.chunks@[id]);
            assert(old(st).chunks@.contains_key(id));
        }
        assert forall|id: u64| #[trigger]
            st.batches@.contains_key(id) implies id < st.next_batch_id by {
            assert(bat1.contains_key(id));
            if id != batch_id {
                assert(old(st).batches@.contains_key(id));
            }
        }
        assert forall|id: u64| #[trigger]
            st.chunks@.contains_key(id) implies st.chunks@[id].batch_id < st.next_batch_id && id
            < st.next_chunk_id by {
            assert(old(st).chunks@.contains_key(id) && st.chunks@[id] == old(st).chunks@[id]);
        }
    }
    Ok(CreateBatchResponse { batch_id })
}

/// Stages one chunk under a live batch, refreshing the batch's deadline. A
/// supplied digest is stored verbatim; it must be exactly 32 bytes.
pub fn create_chunk(st: &mut State, caller: &Vec<u8>, now: u64, arg: CreateChunkArg) -> (r: Result<
    CreateChunkResponse,
    Error,
>)
    requires
        old(st).inv(),
        old(st).next_chunk_id < u64::MAX,
        now <= u64::MAX - BATCH_EXPIRY_NANOS,
    ensures
        final(st).inv(),
        (match r {
            Ok(resp) => {
                &&& old(st).spec_authorized(caller@)
                &&& old(st).batches@.contains_key(arg.batch_id)
                &&& resp.chunk_id == old(st).next_chunk_id
                &&& final(st).next_chunk_id == old(st).next_chunk_id + 1
                &&& final(st).batches@ == old(st).batches@.insert(
                    arg.batch_id,
                    Batch { expires_at: (now + BATCH_EXPIRY_NANOS) as u64 },
                )
                &&& final(st).chunks@.contains_key(resp.chunk_id)
                &&& ({
                    let c = final(st).chunks@[resp.chunk_id];
                    &&& c.batch_id == arg.batch_id
                    &&& c.content@ == arg.content@
                    &&& (match arg.sha256 {
                        Some(s) => c.sha256@ == s@,
                        None => c.sha256@ == crate::tree::sha256_of(arg.content@),
                    })
                })
                &&& (forall|id: u64|
                    id != resp.chunk_id ==> final(st).chunks@.contains_key(id) == old(st).chunks@.contains_key(id))
                &&& (forall|id: u64|
                    id != resp.chunk_id && #[trigger] final(st).chunks@.contains_key(id) ==> final(st).chunks@[id] == old(st).chunks@[id])
                &&& final(st).assets == old(st).assets
                &&& final(st).next_batch_id == old(st).next_batch_id
                &&& final(st).authorized == old(st).authorized
            },
            Err(e) => *final(st) == *old(st) && ((e == Error::NotAuthorized && !old(st).spec_authorized(caller@)) || (e == Error::BatchNotFound && old(st).spec_authorized(
                caller@,
            ) && !old(st).batches@.contains_key(arg.batch_id)) || (e == Error::InvalidSha256 && old(st).spec_authorized(caller@) && old(st).batches@.contains_key(arg.batch_id) && (
            match arg.sha256 {
                Some(s) => s@.len() != 32,
                None => false,
            }))),
        }),
{
    match is_authorized(st, caller) {
        Ok(()) => {},
        Err(e) => {
            return Err(e);
        },
    }
    if !st.batches.get(arg.batch_id).is_some() {
        return Err(Error::BatchNotFound);
    }
    let sha256: Vec<u8> = match arg.sha256 {
        Some(s) => {
            if s.len() != 32 {
                return Err(Error::InvalidSha256);
            }
            s
        },
        None => hash_bytes(&arg.content),
    };
    st.batches.insert(arg.batch_id, Batch { expires_at: now + BATCH_EXPIRY_NANOS });
    let chunk_id = st.next_chunk_id;
    st.next_chunk_id = st.next_chunk_id + 1;
    st.chunks.insert(
        chunk_id,
        Chunk { batch_id: arg.batch_id, content: RcBytes::from_vec(arg.content), sha256 },
    );
    Ok(CreateChunkResponse { chunk_id })
}


/// A smaller staged-chunk table never counts more bytes for the same list.
pub proof fn lemma_ids_total_submap(m1: Map<u64, Chunk>, m2: Map<u64, Chunk>, ids: Seq<u64>)
    requires
        forall|id: u64| #[trigger] m2.contains_key(id) ==> m1.contains_key(id) && m2[id] == m1[id],
    ensures
        ids_total(m2, ids) <= ids_total(m1, ids),
    decreases ids.len(),
{
    if ids.len() > 0 {
        lemma_ids_total_submap(m1, m2, ids.drop_last());
    }
}

/// Every content-setting operation of the log stays within the machine bound
/// on a single encoding's length.
pub open spec fn ops_total_ok(chunks: Map<u64, Chunk>, ops: Seq<BatchOperation>) -> bool {
    forall|i: int|
        0 <= i < ops.len() ==> (match #[trigger] ops[i] {
            BatchOperation::SetAssetContent(a) => ids_consumable(chunks, a.chunk_ids@)
                ==> ids_total(chunks, a.chunk_ids@) <= u64::MAX,
            _ => true,
        })
}

/// One logged operation's effect, dispatched by kind; deleting and clearing
/// never fail.
pub open spec fn op_post(
    pre: State,
    post: State,
    now: u64,
    op: BatchOperation,
    r: Result<(), Error>,
) -> bool {
    match op {
        BatchOperation::CreateAsset(a) => create_asset_post(pre, post, a, r),
        BatchOperation::SetAssetContent(a) => set_asset_content_post(pre, post, now, a, r),
        BatchOperation::UnsetAssetContent(a) => unset_asset_content_post(pre, post, a, r),
        BatchOperation::DeleteAsset(a) => delete_asset_post(pre, post, a) && r == Ok::<(), Error>(
            (),
        ),
        BatchOperation::Clear(_) => clear_post(pre, post) && r == Ok::<(), Error>(()),
    }
}

/// The in-order replay of an operation log: each operation's effect chains
/// into the next, and a failing operation ends the replay with its own
/// error, leaving the state that operation left.
pub open spec fn replay(
    pre: State,
    now: u64,
    ops: Seq<BatchOperation>,
    post: State,
    r: Result<(), Error>,
) -> bool
    decreases ops.len(),
{
    if ops.len() == 0 {
        r == Ok::<(), Error>(()) && post == pre
    } else {
        exists|mid: State, r0: Result<(), Error>|
            #![auto]
            op_post(pre, mid, now, ops[0], r0) && (match r0 {
                Ok(()) => replay(mid, now, ops.drop_first(), post, r),
                Err(e) => post == mid && r == Err::<(), Error>(e),
            })
    }
}

/// Replays the operation log in order against the store, then drops the
/// batch. A failing operation stops the replay; the host is expected to
/// discard the state it left behind, as it would on a trap.
#[verifier::rlimit(30)]
pub fn commit_batch(st: &mut State, now: u64, arg: CommitBatchArguments) -> (r: Result<(), Error>)
    requires
        old(st).inv(),
        staged_lens_ok(*old(st)),
        ops_total_ok(old(st).chunks@, arg.operations@),
    ensures
        final(st).inv(),
        staged_lens_ok(*final(st)),
        (match r {
            Ok(()) => (exists|mid: State|
                #![auto]
                replay(*old(st), now, arg.operations@, mid, Ok(())) && final(st).batches@
                    == mid.batches@.remove(arg.batch_id) && final(st).assets == mid.assets
                    && final(st).chunks == mid.chunks && final(st).asset_hashes == mid.asset_hashes
                    && final(st).chunk_hashes == mid.chunk_hashes && final(st).certified_data
                    == mid.certified_data && final(st).authorized == mid.authorized && final(st).next_batch_id == mid.next_batch_id && final(st).next_chunk_id == mid.next_chunk_id)
                && !final(st).batches@.contains_key(arg.batch_id),
            Err(e) => replay(*old(st), now, arg.operations@, *final(st), Err(e)),
        }),
{
    let ghost chunks0 = st.chunks@;
    let ghost ops0 = arg.operations@;
    let mut ops = arg.operations;
    let mut idx: usize = 0;
    let nops: usize = ops.len();
    proof {
        assert(ops0.skip(0) =~= ops0);
    }
    while ops.len() > 0
        invariant
            st.inv(),
            staged_lens_ok(*st),
            ops@ == ops0.skip(idx as int),
            ops0 == arg.operations@,
            nops as nat == ops0.len(),
            0 <= idx <= nops,
            ops_total_ok(chunks0, ops0),
            forall|id: u64| #[trigger]
                st.chunks@.contains_key(id) ==> chunks0.contains_key(id) && st.chunks@[id]
                    == chunks0[id],
            forall|post2: State, r2: Result<(), Error>|
                replay(*st, now, ops0.skip(idx as int), post2, r2) ==> #[trigger] replay(
                    *old(st),
                    now,
                    ops0,
                    post2,
                    r2,
                ),
        decreases ops@.len(),
    {
        let ghost st_before = *st;
        let op = ops.remove(0);
        let ghost cur = ops0[idx as int];
        proof {
            assert(ops0.skip(idx as int)[0] == ops0[idx as int]);
            assert(op == ops0[idx as int]);
            assert(ops0.skip(idx as int).remove(0) =~= ops0.skip(idx + 1));
            assert(ops0.skip(idx as int).drop_first() =~= ops0.skip(idx + 1));
        }
        let outcome: Result<(), Error> = match op {
            BatchOperation::CreateAsset(a) => do_create_asset(st, a),
            BatchOperation::SetAssetContent(a) => {
                proof {
                    if ids_consumable(st.chunks@, a.chunk_ids@) {
                        assert(ids_consumable(chunks0, a.chunk_ids@));
                        lemma_ids_total_submap(chunks0, st.chunks@, a.chunk_ids@);
                    }
                }
                do_set_asset_content(st, now, a)
            },
            BatchOperation::UnsetAssetContent(a) => do_unset_asset_content(st, a),
            BatchOperation::DeleteAsset(a) => {
                do_delete_asset(st, a);
                Ok(())
            },
            BatchOperation::Clear(_) => {
                do_clear(st);
                Ok(())
            },
        };
        proof {
            assert(op_post(st_before, *st, now, cur, outcome));
        }
        match outcome {
            Ok(()) => {},
            Err(e) => {
                proof {
                    assert(replay(st_before, now, ops0.skip(idx as int), *st, Err(e))) by {
                        assert(op_post(st_before, *st, now, ops0.skip(idx as int)[0], Err(e)));
                    }
                    assert(replay(*old(st), now, ops0, *st, Err(e)));
                }
                return Err(e);
            },
        }
        proof {
            let ghost st_now = *st;
            assert forall|post2: State, r2: Result<(), Error>|
                replay(st_now, now, ops0.skip(idx + 1), post2, r2) implies #[trigger] replay(
                *old(st),
                now,
                ops0,
                post2,
                r2,
            ) by {
                assert(op_post(st_before, st_now, now, ops0.skip(idx as int)[0], Ok(())));
                assert(replay(st_before, now, ops0.skip(idx as int), post2, r2));
            }
        }
        idx = idx + 1;
    }
    proof {
        assert(ops0.skip(idx as int).len() == 0);
        assert(replay(*st, now, ops0.skip(idx as int), *st, Ok(())));
        assert(replay(*old(st), now, ops0, *st, Ok(())));
    }
    let ghost mid_final = *st;
    let _ = st.batches.remove(arg.batch_id);
    proof {
        assert(replay(*old(st), now, arg.operations@, mid_final, Ok(())));
    }
    Ok(())
}

/// A fresh store whose allowlist holds only the installing caller.
pub fn init(caller: Vec<u8>) -> (st: State)
    ensures
        st.inv(),
        st.authorized@.len() == 1,
        st.authorized@[0] == caller,
        st.assets@ == Map::<Seq<char>, Asset>::empty(),
{
    let mut st = State::new();
    st.authorized.push(caller);
    st
}

/// What survives an upgrade: the allowlist and the asset table, taken out of
/// the store.
pub fn pre_upgrade(st: State) -> (s: StableState)
    ensures
        s.authorized == st.authorized,
        s.stable_assets == st.assets,
{
    StableState { authorized: st.authorized, stable_assets: st.assets }
}

/// An asset carried across an upgrade keeps its content type and every
/// encoding's chunks, lengths, digest and timestamp; only the certified
/// flags are recomputed.
pub open spec fn asset_carried(a0: Asset, a1: Asset) -> bool {
    &&& a1.content_type == a0.content_type
    &&& (forall|e: Seq<char>| a1.encodings@.contains_key(e) == a0.encodings@.contains_key(e))
    &&& (forall|e: Seq<char>| #[trigger]
        a1.encodings@.contains_key(e) ==> a1.encodings@[e].content_chunks
            == a0.encodings@[e].content_chunks && a1.encodings@[e].total_length
            == a0.encodings@[e].total_length && a1.encodings@[e].sha256 == a0.encodings@[e].sha256
            && a1.encodings@[e].modified == a0.encodings@[e].modified)
}

/// A stable record is usable when its tables are well formed and every
/// encoding keeps the chunk-layout discipline.
pub open spec fn stable_ok(s: StableState) -> bool {
    &&& s.stable_assets.wf()
    &&& (forall|i: int|
        0 <= i < s.stable_assets.entries@.len() ==> (#[trigger] s.stable_assets.entries@[i]).1.encodings.wf()
            && (forall|e: Seq<char>| #[trigger]
            s.stable_assets.entries@[i].1.encodings@.contains_key(e) ==> enc_layout_ok(
                s.stable_assets.entries@[i].1.encodings@[e],
            )))
}

/// Decides `enc_layout_ok` of one encoding.
fn enc_layout_check(e: &AssetEncoding) -> (r: bool)
    ensures
        r == enc_layout_ok(*e),
{
    let n = e.content_chunks.len();
    if n == 0 {
        return false;
    }
    if e.sha256.len() != 32 {
        return false;
    }
    let mut acc: u64 = 0;
    let mut i: usize = 0;
    while i < n
        invariant
            i <= n,
            n == e.content_chunks@.len(),
            n >= 1,
            e.sha256@.len() == 32,
            acc as nat == prefix_len(e.content_chunks@, i as int),
            forall|j: int| 0 <= j < i ==> chunk_at_ok(e.content_chunks@, j),
        decreases n - i,
    {
        let c = &e.content_chunks[i];
        let len = c.content.len();
        if len == 0 {
            assert(!chunk_at_ok(e.content_chunks@, i as int));
            return false;
        }
        if c.sha256.len() != 32 {
            assert(!chunk_at_ok(e.content_chunks@, i as int));
            return false;
        }
        if c.start_byte != acc {
            assert(!chunk_at_ok(e.content_chunks@, i as int));
            return false;
        }
        if (len as u64) > u64::MAX - acc {
            proof {
                lemma_prefix_len_bound(e.content_chunks@, i + 1, n as int);
                assert(prefix_len(e.content_chunks@, i + 1) > u64::MAX || !chunk_at_ok(
                    e.content_chunks@,
                    i as int,
                ));
            }
            return false;
        }
        if c.end_byte != acc + (len as u64) - 1 {
            assert(!chunk_at_ok(e.content_chunks@, i as int));
            return false;
        }
        acc = acc + (len as u64);
        i = i + 1;
    }
    if e.total_length != acc {
        return false;
    }
    true
}

/// Decides the per-asset part of `stable_ok`: well-formed encodings, each
/// with an exact chunk layout.
fn asset_layout_check(a: &Asset) -> (r: bool)
    ensures
        r == (a.encodings.wf() && (forall|e: Seq<char>| #[trigger]
            a.encodings@.contains_key(e) ==> enc_layout_ok(a.encodings@[e]))),
{
    let m = a.encodings.entries.len();
    let mut i: usize = 0;
    while i < m
        invariant
            i <= m,
            m == a.encodings.entries@.len(),
            forall|x: int, y: int|
                0 <= x < y < i ==> a.encodings.entries@[x].0@ != a.encodings.entries@[y].0@,
        decreases m - i,
    {
        let mut j: usize = 0;
        while j < i
            invariant
                j <= i,
                i < m,
                m == a.encodings.entries@.len(),
                forall|x: int|
                    0 <= x < j ==> a.encodings.entries@[x].0@ != a.encodings.entries@[i as int].0@,
            decreases i - j,
        {
            if str_eq(a.encodings.entries[j].0.as_str(), a.encodings.entries[i].0.as_str()) {
                assert(!a.encodings.wf());
                return false;
            }
            j = j + 1;
        }
        i = i + 1;
    }
    assert(a.encodings.wf());
    let mut k: usize = 0;
    while k < m
        invariant
            k <= m,
            m == a.encodings.entries@.len(),
            a.encodings.wf(),
            forall|x: int| 0 <= x < k ==> enc_layout_ok(a.encodings.entries@[x].1),
        decreases m - k,
    {
        if !enc_layout_check(&a.encodings.entries[k].1) {
            proof {
                a.encodings.lemma_entry_in_view(k as int);
            }
            return false;
        }
        k = k + 1;
    }
    proof {
        assert forall|e: Seq<char>| #[trigger]
            a.encodings@.contains_key(e) implies enc_layout_ok(a.encodings@[e]) by {
            let j = a.encodings.idx_of(e);
            a.encodings.lemma_entry_in_view(j);
        }
    }
    true
}

/// Decides whether a stable record satisfies `stable_ok`, so that a host can
/// test a deserialized record before it asks for the store to be rebuilt.
pub fn stable_check(s: &StableState) -> (r: bool)
    ensures
        r == stable_ok(*s),
{
    let n = s.stable_assets.entries.len();
    let mut i: usize = 0;
    while i < n
        invariant
            i <= n,
            n == s.stable_assets.entries@.len(),
            forall|x: int, y: int|
                0 <= x < y < i ==> s.stable_assets.entries@[x].0@
                    != s.stable_assets.entries@[y].0@,
        decreases n - i,
    {
        let mut j: usize = 0;
        while j < i
            invariant
                j <= i,
                i < n,
                n == s.stable_assets.entries@.len(),
                forall|x: int|
                    0 <= x < j ==> s.stable_assets.entries@[x].0@
                        != s.stable_assets.entries@[i as int].0@,
            decreases i - j,
        {
            if str_eq(
                s.stable_assets.entries[j].0.as_str(),
                s.stable_assets.entries[i].0.as_str(),
            ) {
                assert(!s.stable_assets.wf());
                return false;
            }
            j = j + 1;
        }
        i = i + 1;
    }
    assert(s.stable_assets.wf());
    let mut k: usize = 0;
    while k < n
        invariant
            k <= n,
            n == s.stable_assets.entries@.len(),
            s.stable_assets.wf(),
            forall|x: int|
                0 <= x < k ==> (#[trigger] s.stable_assets.entries@[x]).1.encodings.wf() && (
                forall|e: Seq<char>| #[trigger]
                    s.stable_assets.entries@[x].1.encodings@.contains_key(e) ==> enc_layout_ok(
                        s.stable_assets.entries@[x].1.encodings@[e],
                    )),
        decreases n - k,
    {
        if !asset_layout_check(&s.stable_assets.entries[k].1) {
            return false;
        }
        k = k + 1;
    }
    true
}

/// Restores one asset into the store: its flags are cleared and it is
/// re-certified, so both trees are rebuilt deterministically.
fn restore_asset(st: &mut State, key: String, asset: Asset)
    requires
        old(st).inv(),
        !old(st).assets@.contains_key(key@),
        !rb_view(old(st).asset_hashes).contains_key(key@),
        !old(st).chunk_hashes@.contains_key(key@),
        asset.encodings.wf(),
        forall|e: Seq<char>| #[trigger]
            asset.encodings@.contains_key(e) ==> enc_layout_ok(asset.encodings@[e]),
    ensures
        final(st).inv(),
        final(st).assets@.contains_key(key@),
        (forall|k2: Seq<char>|
            k2 != key@ ==> final(st).assets@.contains_key(k2) == old(st).assets@.contains_key(k2)),
        (forall|k2: Seq<char>|
            k2 != key@ && #[trigger] final(st).assets@.contains_key(k2) ==> final(st).assets@[k2]
                == old(st).assets@[k2]),
        (forall|e: Seq<char>|
            final(st).assets@[key@].encodings@.contains_key(e) == asset.encodings@.contains_key(
                e,
            )),
        (forall|e: Seq<char>| #[trigger]
            final(st).assets@[key@].encodings@.contains_key(e) ==> ({
                let fe = final(st).assets@[key@].encodings@[e];
                fe.content_chunks == asset.encodings@[e].content_chunks && fe.total_length
                    == asset.encodings@[e].total_length && fe.sha256 == asset.encodings@[e].sha256
                    && fe.modified == asset.encodings@[e].modified
            })),
        final(st).assets@[key@].content_type == asset.content_type,
        final(st).assets.entries@.len() == old(st).assets.entries@.len() + 1,
        (forall|i: int|
            0 <= i < old(st).assets.entries@.len() ==> final(st).assets.entries@[i] == old(st).assets.entries@[i]),
        final(st).assets.entries@[old(st).assets.entries@.len() as int].0@ == key@,
        final(st).authorized == old(st).authorized,
        final(st).batches == old(st).batches,
        final(st).chunks == old(st).chunks,
        final(st).next_batch_id == old(st).next_batch_id,
        final(st).next_chunk_id == old(st).next_chunk_id,
    {
    let ghost st0 = *st;
    let mut asset = asset;
    clear_certified(&mut asset.encodings);
    let ghost a_mid = asset;
    on_asset_change(st, &key, &mut asset);
    let ghost a_fin = asset;
    st.assets.insert(key.clone(), asset);
    proof {
        let k = key@;
        let h = rb_view(st.asset_hashes);
        let encs_mid = a_mid.encodings@;
        assert forall|k2: Seq<char>| #[trigger]
            st.assets@.contains_key(k2) implies asset_ok(
            st.assets@[k2],
            k2,
            h,
            st.chunk_hashes@.contains_key(k2),
        ) by {
            if k2 == k {
                assert(!(match first_priority_present(encs_mid, 0) {
                    Some(p) => encs_mid[p].certified,
                    None => false,
                })) by {
                    if first_priority_present(encs_mid, 0) is Some {
                        let p = first_priority_present(encs_mid, 0).unwrap();
                        lemma_fpp_contains(encs_mid, 0, p);
                    }
                }
                if no_encodings(encs_mid) {
                    assert(!h.contains_key(k));
                    assert(!st.chunk_hashes@.contains_key(k));
                    assert(asset_ok(a_fin, k, h, st.chunk_hashes@.contains_key(k)));
                } else {
                    lemma_asset_ok_after_change(
                        encs_mid,
                        a_fin,
                        k,
                        rb_view(st0.asset_hashes),
                        h,
                        chosen_enc(a_mid),
                    );
                    assert(asset_ok(a_fin, k, h, st.chunk_hashes@.contains_key(k)));
                }
            } else {
                assert(st0.assets@.contains_key(k2));
                assert(st.assets@[k2] == st0.assets@[k2]);
                assert(st.chunk_hashes@.contains_key(k2) == st0.chunk_hashes@.contains_key(k2));
                lemma_asset_ok_frame(
                    st0.assets@[k2],
                    k2,
                    rb_view(st0.asset_hashes),
                    h,
                    st0.chunk_hashes@.contains_key(k2),
                );
            }
        }
        assert forall|k2: Seq<char>| #[trigger]
            rb_view(st.asset_hashes).contains_key(k2) implies st.assets@.contains_key(k2) by {
            if k2 != k {
                assert(rb_view(st0.asset_hashes).contains_key(k2));
            }
        }
        assert forall|k2: Seq<char>| #[trigger]
            st.chunk_hashes@.contains_key(k2) implies st.assets@.contains_key(k2) by {
            if k2 != k {
                assert(st0.chunk_hashes@.contains_key(k2));
            }
        }
        assert(st.assets@[k] == a_fin);
        lemma_fpp_same_dom(encs_mid, asset.encodings@, 0);
    }
}

/// Rebuilds the store from a stable record: certified flags are dropped and
/// every asset is re-certified, so the trees and the published root are
/// rebuilt deterministically.
pub fn post_upgrade(stable: StableState) -> (st: State)
    requires
        stable_ok(stable),
    ensures
        st.inv(),
        st.authorized == stable.authorized,
        st.assets.entries@.len() == stable.stable_assets.entries@.len(),
        (forall|i: int|
            0 <= i < stable.stable_assets.entries@.len() ==> st.assets.entries@[i].0@
                == (#[trigger] stable.stable_assets.entries@[i]).0@),
        (forall|i: int|
            0 <= i < stable.stable_assets.entries@.len() ==> st.assets@.contains_key(
                (#[trigger] stable.stable_assets.entries@[i]).0@,
            ) && asset_carried(
                stable.stable_assets.entries@[i].1,
                st.assets@[stable.stable_assets.entries@[i].0@],
            )),
{
    let mut st = State::new();
    st.authorized = stable.authorized;
    let mut assets = stable.stable_assets;
    let ghost orig = assets;
    let ghost total = assets.entries@.len();
    let n0: usize = assets.entries.len();
    let mut done: usize = 0;
    proof {
        if st.assets.entries@.len() > 0 {
            st.assets.lemma_entry_in_view(0);
            assert(false);
        }
    }
    while assets.entries.len() > 0
        invariant
            st.inv(),
            st.authorized == stable.authorized,
            n0 as nat == total,
            done <= n0,
            orig.wf(),
            stable_ok(StableState { authorized: st.authorized, stable_assets: orig }),
            done + assets.entries@.len() == total,
            total == orig.entries@.len(),
            assets.entries@ =~= orig.entries@.skip(done as int),
            st.assets.entries@.len() == done,
            forall|i: int|
                0 <= i < done ==> st.assets.entries@[i].0@ == (#[trigger] orig.entries@[i]).0@,
            forall|i: int|
                0 <= i < done ==> st.assets@.contains_key((#[trigger] orig.entries@[i]).0@)
                    && asset_carried(orig.entries@[i].1, st.assets@[orig.entries@[i].0@]),
            forall|k2: Seq<char>| #[trigger]
                st.assets@.contains_key(k2) ==> (exists|i: int|
                    0 <= i < done && (#[trigger] orig.entries@[i]).0@ == k2),
            st.batches@ == Map::<u64, Batch>::empty(),
            st.chunks@ == Map::<u64, Chunk>::empty(),
        decreases assets.entries@.len(),
    {
        let (key, asset) = assets.entries.remove(0);
        proof {
            assert(orig.entries@.skip(done as int)[0] == orig.entries@[done as int]);
            assert(orig.entries@.skip(done as int).remove(0) =~= orig.entries@.skip(done + 1));
            assert(!st.assets@.contains_key(key@)) by {
                if st.assets@.contains_key(key@) {
                    let i = choose|i: int|
                        0 <= i < done && (#[trigger] orig.entries@[i]).0@ == key@;
                    assert(orig.entries@[i].0@ == orig.entries@[done as int].0@);
                    assert(false);
                }
            }
            assert(asset.encodings.wf());
        }
        let ghost st_before = st;
        let ghost asset0 = asset;
        restore_asset(&mut st, key, asset);
        proof {
            assert forall|i: int|
                0 <= i < done + 1 implies st.assets@.contains_key((#[trigger] orig.entries@[i]).0@)
                    && asset_carried(orig.entries@[i].1, st.assets@[orig.entries@[i].0@]) by {
                let ki = orig.entries@[i].0@;
                if i == done as int {
                    assert(ki == key@);
                    assert(orig.entries@[i].1 == asset0);
                    assert(asset_carried(asset0, st.assets@[key@]));
                } else {
                    assert(ki != key@);
                    assert(st_before.assets@.contains_key(ki));
                    assert(st.assets@[ki] == st_before.assets@[ki]);
                }
            }
            assert forall|k2: Seq<char>| #[trigger]
                st.assets@.contains_key(k2) implies (exists|i: int|
                0 <= i < done + 1 && (#[trigger] orig.entries@[i]).0@ == k2) by {
                if k2 == orig.entries@[done as int].0@ {
                    assert(0 <= (done as int) && (done as int) < done + 1 && orig.entries@[done as int].0@ == k2);
                } else {
                    assert(st_before.assets@.contains_key(k2));
                    let i = choose|i: int|
                        0 <= i < done && (#[trigger] orig.entries@[i]).0@ == k2;
                    assert(0 <= i < done + 1 && orig.entries@[i].0@ == k2);
                }
            }
        }
        done = done + 1;
    }
    st
}

} // verus!
