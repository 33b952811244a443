use vstd::prelude::*;

use ic_certified_map::{AsHashTree, HashTree, RbTree};
use serde::Serialize;
use sha2::Digest;
use std::borrow::Cow;

verus! {

use crate::table::bytes_eq;
use crate::types::Error;

/// The ordered digest map both Merkle trees are instances of: path or chunk
/// index to 32-byte digest.
pub type RbMap = RbTree<String, ic_certified_map::Hash>;

#[verifier::external_type_specification]
#[verifier::external_body]
#[verifier::reject_recursive_types(K)]
#[verifier::reject_recursive_types(V)]
pub struct ExRbTree<K, V>(RbTree<K, V>);

#[verifier::external_type_specification]
#[verifier::external_body]
pub struct ExHashTree<'a>(HashTree<'a>);

/// The library's own form of a Merkle witness: the pruned tree a response
/// carries as its proof.
pub enum WitnessTree {
    Empty,
    Fork(Box<(WitnessTree, WitnessTree)>),
    Labeled(Vec<u8>, Box<WitnessTree>),
    Leaf(Vec<u8>),
    Pruned(Vec<u8>),
}

/// The mathematical form of a witness: the same tree over byte strings.
pub enum SpecTree {
    Empty,
    Fork(Box<(SpecTree, SpecTree)>),
    Labeled(Seq<u8>, Box<SpecTree>),
    Leaf(Seq<u8>),
    Pruned(Seq<u8>),
}

impl View for WitnessTree {
    type V = SpecTree;

    open spec fn view(&self) -> SpecTree
        decreases self,
    {
        match self {
            WitnessTree::Empty => SpecTree::Empty,
            WitnessTree::Fork(p) => SpecTree::Fork(Box::new(((*p).0@, (*p).1@))),
            WitnessTree::Labeled(l, s) => SpecTree::Labeled(l@, Box::new((**s)@)),
            WitnessTree::Leaf(v) => SpecTree::Leaf(v@),
            WitnessTree::Pruned(h) => SpecTree::Pruned(h@),
        }
    }
}

impl WitnessTree {
    /// Every pruned branch carries a 32-byte digest.
    pub open spec fn wf(self) -> bool
        decreases self,
    {
        match self {
            WitnessTree::Empty => true,
            WitnessTree::Fork(p) => (*p).0.wf() && (*p).1.wf(),
            WitnessTree::Labeled(_, s) => (*s).wf(),
            WitnessTree::Leaf(_) => true,
            WitnessTree::Pruned(h) => h@.len() == 32,
        }
    }
}

/// The entries of an asset-hash or chunk-hash tree, keyed by name.
pub uninterp spec fn rb_view(t: RbMap) -> Map<Seq<char>, Seq<u8>>;

/// The view of a tree no key was ever inserted into.
pub open spec fn rb_empty_view() -> Map<Seq<char>, Seq<u8>> {
    Map::empty()
}

/// The root digest of a tree value.
pub uninterp spec fn rb_root(t: RbMap) -> Seq<u8>;

/// The witness a tree value produces for a key.
pub uninterp spec fn rb_witness_of(t: RbMap, key: Seq<char>) -> WitnessTree;

/// The SHA-256 digest of a byte string.
pub uninterp spec fn sha256_of(bytes: Seq<u8>) -> Seq<u8>;

/// The digest of a labeled subtree, per the certification scheme.
pub uninterp spec fn labeled_hash_of(label: Seq<u8>, content: Seq<u8>) -> Seq<u8>;

/// The self-described CBOR stream of a witness.
pub uninterp spec fn cbor_of(tree: SpecTree) -> Seq<u8>;

/// The base64 text of a byte string.
pub uninterp spec fn b64_of(bytes: Seq<u8>) -> Seq<char>;

/// Relies on RbTree::new: constructs the empty map.
#[verifier::external_body]
pub fn rb_new() -> (t: RbMap)
    ensures
        rb_view(t) == rb_empty_view(),
{
    RbTree::new()
}

/// Relies on RbTree::insert: adds or replaces the entry for the key.
#[verifier::external_body]
pub fn rb_insert(t: &mut RbMap, key: String, value: &Vec<u8>)
    requires
        value@.len() == 32,
    ensures
        rb_view(*final(t)) == rb_view(*old(t)).insert(key@, value@),
{
    let mut h: ic_certified_map::Hash = [0u8; 32];
    h.copy_from_slice(value);
    t.insert(key, h);
}

/// Relies on RbTree::delete: removes the entry for the key, if present.
#[verifier::external_body]
pub fn rb_delete(t: &mut RbMap, key: &str)
    ensures
        rb_view(*final(t)) == rb_view(*old(t)).remove(key@),
{
    t.delete(key.as_bytes());
}

/// Relies on RbTree::get: the value stored for the key, if any.
#[verifier::external_body]
pub fn rb_get(t: &RbMap, key: &str) -> (r: Option<Vec<u8>>)
    ensures
        (match r {
            Some(v) => rb_view(*t).contains_key(key@) && v@ == rb_view(*t)[key@] && v@.len()
                == 32,
            None => !rb_view(*t).contains_key(key@),
        }),
{
    t.get(key.as_bytes()).map(|h| h.to_vec())
}

/// Relies on RbTree::root_hash: the 32-byte root digest of the tree.
#[verifier::external_body]
pub fn rb_root_hash(t: &RbMap) -> (r: Vec<u8>)
    ensures
        r@ == rb_root(*t),
        r@.len() == 32,
{
    t.root_hash().to_vec()
}

/// Relies on RbTree::witness: a pruned tree proving the presence or the
/// absence of the key, carried over into the library's own tree form. Every
/// pruned branch it yields comes from a 32-byte subtree digest.
#[verifier::external_body]
pub fn rb_witness(t: &RbMap, key: &str) -> (w: WitnessTree)
    ensures
        w == rb_witness_of(*t, key@),
        w.wf(),
{
    witness_tree_of(&t.witness(key.as_bytes()))
}

/// Carries an ic_certified_map hash tree into the library's own form, one
/// variant at a time; labels, leaves and pruned digests are copied.
#[verifier::external_body]
fn witness_tree_of(t: &HashTree<'_>) -> WitnessTree {
    match t {
        HashTree::Empty => WitnessTree::Empty,
        HashTree::Fork(p) => WitnessTree::Fork(
            Box::new((witness_tree_of(&p.0), witness_tree_of(&p.1))),
        ),
        HashTree::Labeled(l, s) => WitnessTree::Labeled(l.to_vec(), Box::new(witness_tree_of(s))),
        HashTree::Leaf(c) => WitnessTree::Leaf(c.to_vec()),
        HashTree::Pruned(h) => WitnessTree::Pruned(h.to_vec()),
    }
}

/// Borrows the library's tree back into ic_certified_map's form so its
/// Serialize impl writes the wire format; labels and leaves are borrowed.
#[verifier::external_body]
fn hash_tree_of<'a>(t: &'a WitnessTree) -> HashTree<'a>
    requires
        t.wf(),
{
    match t {
        WitnessTree::Empty => HashTree::Empty,
        WitnessTree::Fork(p) => HashTree::Fork(Box::new((hash_tree_of(&p.0), hash_tree_of(&p.1)))),
        WitnessTree::Labeled(l, s) => HashTree::Labeled(&l[..], Box::new(hash_tree_of(s))),
        WitnessTree::Leaf(v) => HashTree::Leaf(Cow::Borrowed(&v[..])),
        WitnessTree::Pruned(h) => {
            let mut d: ic_certified_map::Hash = [0u8; 32];
            d.copy_from_slice(h);
            HashTree::Pruned(d)
        },
    }
}

/// Relies on serde_cbor's serializer and HashTree's Serialize impl: the CBOR
/// stream of the witness, preceded by the self-describe tag.
#[verifier::external_body]
pub fn cbor_tree(t: &WitnessTree) -> (r: Vec<u8>)
    requires
        t.wf(),
    ensures
        r@ == cbor_of(t@),
{
    let mut ser = serde_cbor::ser::Serializer::new(Vec::new());
    let _ = ser.self_describe();
    let _ = hash_tree_of(t).serialize(&mut ser);
    ser.into_inner()
}

/// Relies on base64::encode: the standard alphabet with padding.
#[verifier::external_body]
pub fn b64_encode(bytes: &Vec<u8>) -> (r: String)
    ensures
        r@ == b64_of(bytes@),
{
    base64::encode(bytes)
}

/// Relies on sha2::Sha256: the 32-byte SHA-256 digest of the input.
#[verifier::external_body]
pub fn hash_bytes(bytes: &Vec<u8>) -> (r: Vec<u8>)
    ensures
        r@ == sha256_of(bytes@),
        r@.len() == 32,
{
    let mut h = sha2::Sha256::new();
    h.update(bytes.as_slice());
    h.finalize().to_vec()
}

/// Relies on ic_certified_map::labeled_hash: the digest of a labeled subtree.
#[verifier::external_body]
pub fn labeled_hash32(label: &[u8], content: &Vec<u8>) -> (r: Vec<u8>)
    requires
        content@.len() == 32,
    ensures
        r@ == labeled_hash_of(label@, content@),
        r@.len() == 32,
{
    let mut h: ic_certified_map::Hash = [0u8; 32];
    h.copy_from_slice(content);
    ic_certified_map::labeled_hash(label, &h).to_vec()
}

/// The merge of two witnesses: structurally identical spines must agree on
/// all concrete parts; where one side is pruned, the concrete side is kept.
pub open spec fn spec_merge(l: WitnessTree, r: WitnessTree) -> Result<WitnessTree, Error>
    decreases l,
{
    match (l, r) {
        (WitnessTree::Pruned(lh), WitnessTree::Pruned(rh)) => if lh@ == rh@ {
            Ok(WitnessTree::Pruned(lh))
        } else {
            Err(Error::MergeInconsistentHashes)
        },
        (WitnessTree::Pruned(lh), rr) => Ok(rr),
        (ll, WitnessTree::Pruned(rh)) => Ok(ll),
        (WitnessTree::Fork(lp), WitnessTree::Fork(rp)) => {
            match (spec_merge((*lp).0, (*rp).0), spec_merge((*lp).1, (*rp).1)) {
                (Ok(a), Ok(b)) => Ok(WitnessTree::Fork(Box::new((a, b)))),
                (Err(e), _) => Err(e),
                (_, Err(e)) => Err(e),
            }
        },
        (WitnessTree::Labeled(ll, ls), WitnessTree::Labeled(rl, rs)) => if ll@ == rl@ {
            match spec_merge(*ls, *rs) {
                Ok(m) => Ok(WitnessTree::Labeled(ll, Box::new(m))),
                Err(e) => Err(e),
            }
        } else {
            Err(Error::MergeInconsistentLabels)
        },
        (WitnessTree::Empty, WitnessTree::Empty) => Ok(WitnessTree::Empty),
        (WitnessTree::Leaf(lv), WitnessTree::Leaf(rv)) => if lv@ == rv@ {
            Ok(WitnessTree::Leaf(lv))
        } else {
            Err(Error::MergeInconsistentLeaves)
        },
        (_, _) => Err(Error::MergeInconsistentStructure),
    }
}

/// Merges the absence witness for a missing path with the presence witness
/// for the fallback path, so that one proof covers both.
pub fn merge_hash_trees(lhs: WitnessTree, rhs: WitnessTree) -> (r: Result<WitnessTree, Error>)
    ensures
        r == spec_merge(lhs, rhs),
        (match r {
            Ok(m) => lhs.wf() && rhs.wf() ==> m.wf(),
            Err(_) => true,
        }),
    decreases lhs,
{
    match (lhs, rhs) {
        (WitnessTree::Pruned(lh), WitnessTree::Pruned(rh)) => {
            if bytes_eq(lh.as_slice(), rh.as_slice()) {
                Ok(WitnessTree::Pruned(lh))
            } else {
                Err(Error::MergeInconsistentHashes)
            }
        },
        (WitnessTree::Pruned(_), rr) => Ok(rr),
        (ll, WitnessTree::Pruned(_)) => Ok(ll),
        (WitnessTree::Fork(lp), WitnessTree::Fork(rp)) => {
            let (l0, l1) = *lp;
            let (r0, r1) = *rp;
            match merge_hash_trees(l0, r0) {
                Ok(a) => match merge_hash_trees(l1, r1) {
                    Ok(b) => Ok(WitnessTree::Fork(Box::new((a, b)))),
                    Err(e) => Err(e),
                },
                Err(e) => Err(e),
            }
        },
        (WitnessTree::Labeled(ll, ls), WitnessTree::Labeled(rl, rs)) => {
            if bytes_eq(ll.as_slice(), rl.as_slice()) {
                match merge_hash_trees(*ls, *rs) {
                    Ok(m) => Ok(WitnessTree::Labeled(ll, Box::new(m))),
                    Err(e) => Err(e),
                }
            } else {
                Err(Error::MergeInconsistentLabels)
            }
        },
        (WitnessTree::Empty, WitnessTree::Empty) => Ok(WitnessTree::Empty),
        (WitnessTree::Leaf(lv), WitnessTree::Leaf(rv)) => {
            if bytes_eq(lv.as_slice(), rv.as_slice()) {
                Ok(WitnessTree::Leaf(lv))
            } else {
                Err(Error::MergeInconsistentLeaves)
            }
        },
        (l2, r2) => Err(Error::MergeInconsistentStructure),
    }
}

} // verus!
