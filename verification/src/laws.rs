use vstd::prelude::*;

verus! {

use crate::state::{
    asset_ok, chunk_at_ok, enc_layout_ok, first_priority_present, no_encodings, prefix_len,
    retrieve, set_asset_content_post, store, State,
};
use crate::types::SetAssetContentArguments;
use crate::tree::rb_view;
use crate::types::{Error, RcBytes, StoreArg};

/// Every encoding of every asset tiles its total length: the chunk at `i`
/// starts at the sum of the lengths before it and ends one byte short of the
/// next start, and the total equals the sum of all chunk lengths.
pub proof fn law_chunk_layout(st: State, k: Seq<char>, e: Seq<char>)
    requires
        st.inv(),
        st.assets@.contains_key(k),
        st.assets@[k].encodings@.contains_key(e),
    ensures
        ({
            let enc = st.assets@[k].encodings@[e];
            &&& enc.total_length as nat == prefix_len(
                enc.content_chunks@,
                enc.content_chunks@.len() as int,
            )
            &&& enc.content_chunks@.len() >= 1
            &&& (forall|i: int|
                0 <= i < enc.content_chunks@.len()
                    ==> (#[trigger] enc.content_chunks@[i]).start_byte as nat == prefix_len(
                    enc.content_chunks@,
                    i,
                ) && enc.content_chunks@[i].end_byte as nat == prefix_len(enc.content_chunks@, i)
                    + enc.content_chunks@[i].content@.len() - 1)
        }),
{
    assert(asset_ok(
        st.assets@[k],
        k,
        rb_view(st.asset_hashes),
        st.chunk_hashes@.contains_key(k),
    ));
    assert(enc_layout_ok(st.assets@[k].encodings@[e]));
    let enc = st.assets@[k].encodings@[e];
    assert forall|i: int|
        0 <= i < enc.content_chunks@.len()
            implies (#[trigger] enc.content_chunks@[i]).start_byte as nat == prefix_len(
        enc.content_chunks@,
        i,
    ) && enc.content_chunks@[i].end_byte as nat == prefix_len(enc.content_chunks@, i)
        + enc.content_chunks@[i].content@.len() - 1 by {
        assert(chunk_at_ok(enc.content_chunks@, i));
    }
}

/// Whenever setting an encoding's content succeeds, that encoding is tiled
/// exactly: its total length is the sum of its chunks' lengths, each chunk
/// starts at the sum of the lengths before it, and each ends one byte short
/// of the next start.
pub proof fn law_set_content_layout(
    pre: State,
    post: State,
    now: u64,
    arg: SetAssetContentArguments,
)
    requires
        post.inv(),
        set_asset_content_post(pre, post, now, arg, Ok(())),
    ensures
        post.assets@.contains_key(arg.key@),
        post.assets@[arg.key@].encodings@.contains_key(arg.content_encoding@),
        ({
            let enc = post.assets@[arg.key@].encodings@[arg.content_encoding@];
            &&& enc.total_length as nat == prefix_len(
                enc.content_chunks@,
                enc.content_chunks@.len() as int,
            )
            &&& enc.content_chunks@.len() >= 1
            &&& (forall|i: int|
                0 <= i < enc.content_chunks@.len()
                    ==> (#[trigger] enc.content_chunks@[i]).start_byte as nat == prefix_len(
                    enc.content_chunks@,
                    i,
                ) && enc.content_chunks@[i].end_byte as nat == prefix_len(enc.content_chunks@, i)
                    + enc.content_chunks@[i].content@.len() - 1)
        }),
{
    law_chunk_layout(post, arg.key@, arg.content_encoding@);
}

/// After any operation, at most one encoding of an asset is certified; the
/// certified one is the highest-priority encoding present; and the asset-hash
/// tree holds the asset's key exactly when one is certified, mapped to that
/// encoding's digest.
pub proof fn law_certification(st: State, k: Seq<char>)
    requires
        st.inv(),
        st.assets@.contains_key(k),
    ensures
        ({
            let encs = st.assets@[k].encodings@;
            let h = rb_view(st.asset_hashes);
            &&& (forall|e1: Seq<char>, e2: Seq<char>|
                #![trigger encs[e1].certified, encs[e2].certified]
                encs.contains_key(e1) && encs.contains_key(e2) && encs[e1].certified
                    && encs[e2].certified ==> e1 == e2)
            &&& (h.contains_key(k) <==> (exists|e: Seq<char>|
                #![auto]
                encs.contains_key(e) && encs[e].certified))
            &&& (forall|e: Seq<char>|
                encs.contains_key(e) && #[trigger] encs[e].certified ==> h[k] == encs[e].sha256@)
            &&& (forall|e: Seq<char>|
                encs.contains_key(e) && #[trigger] encs[e].certified ==> (
                match first_priority_present(encs, 0) {
                    Some(p) => e == p,
                    None => true,
                }))
            &&& (no_encodings(encs) ==> !h.contains_key(k) && !st.chunk_hashes@.contains_key(k))
        }),
{
    assert(asset_ok(
        st.assets@[k],
        k,
        rb_view(st.asset_hashes),
        st.chunk_hashes@.contains_key(k),
    ));
}

/// A single-shot store of an identity encoding round-trips: what was stored
/// is exactly what a retrieval hands back.
pub fn law_store_retrieve(
    st: &mut State,
    caller: &Vec<u8>,
    now: u64,
    key: String,
    content_type: String,
    content: Vec<u8>,
) -> (r: RcBytes)
    requires
        old(st).inv(),
        old(st).spec_authorized(caller@),
        content@.len() >= 1,
    ensures
        final(st).inv(),
        r@ == content@,
{
    let ghost expected = content@;
    let arg = StoreArg {
        key: key.clone(),
        content_type,
        content_encoding: "identity".to_owned(),
        content,
        sha256: None,
    };
    let stored = store(st, caller, now, arg);
    proof {
        assert(stored is Ok);
    }
    let got = retrieve(st, &key);
    match got {
        Ok(b) => {
            proof {
                assert(b@ == expected);
            }
            b
        },
        Err(_) => vstd::pervasive::unreached(),
    }
}

} // verus!
