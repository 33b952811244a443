use certified_assets::http::http_request;
use certified_assets::state::{authorize, do_clear, init, list, retrieve, store, State};
use certified_assets::tree::rb_root_hash;
use certified_assets::types::{Error, GetArg, HttpRequest, StoreArg};

fn me() -> Vec<u8> {
    vec![9, 9, 9]
}

fn arg(key: &str, enc: &str, content: &[u8]) -> StoreArg {
    StoreArg {
        key: key.to_string(),
        content_type: "text/plain".to_string(),
        content_encoding: enc.to_string(),
        content: content.to_vec(),
        sha256: None,
    }
}

#[test]
fn published_digest_matches_labeled_root() {
    let caller = me();
    let mut st = init(caller.clone());
    store(&mut st, &caller, 1, arg("/a", "identity", b"abc")).unwrap();
    let root = rb_root_hash(&st.asset_hashes);
    let mut root32 = [0u8; 32];
    root32.copy_from_slice(&root);
    let expected = ic_certified_map::labeled_hash(b"http_assets", &root32);
    assert_eq!(st.certified_data, expected.to_vec());
}

#[test]
fn authorize_extends_allowlist_only_for_members() {
    let caller = me();
    let friend = vec![5, 5];
    let outsider = vec![6, 6];
    let mut st = init(caller.clone());
    // an outsider is rejected and the list stays as it was
    let denied = authorize(&mut st, &outsider, vec![8, 8]);
    assert_eq!(denied, Err(Error::NotAuthorized));
    assert_eq!(st.authorized.len(), 1);
    // a member can extend the list
    assert!(authorize(&mut st, &caller, friend.clone()).is_ok());
    assert_eq!(st.authorized.len(), 2);
    // and the newcomer may now store
    assert!(store(&mut st, &friend, 1, arg("/f", "identity", b"ok")).is_ok());
}

#[test]
fn clear_empties_assets_but_keeps_allowlist() {
    let caller = me();
    let mut st = init(caller.clone());
    store(&mut st, &caller, 1, arg("/a", "identity", b"abc")).unwrap();
    do_clear(&mut st);
    assert_eq!(list(&st).len(), 0);
    assert!(matches!(retrieve(&st, &"/a".to_string()), Err(Error::AssetNotFound)));
    assert_eq!(st.authorized.len(), 1);
    // the published digest is the labeled hash of the empty tree again
    let fresh = State::new();
    assert_eq!(st.certified_data, fresh.certified_data);
}

#[test]
fn get_reports_missing_encoding() {
    let caller = me();
    let mut st = init(caller.clone());
    store(&mut st, &caller, 1, arg("/a", "gzip", b"zzz")).unwrap();
    let r = certified_assets::state::get(
        &st,
        &GetArg { key: "/a".to_string(), accept_encodings: vec!["br".to_string()] },
    );
    assert!(matches!(r, Err(Error::NoSuchEncoding)));
    let r2 = certified_assets::state::get(
        &st,
        &GetArg { key: "/nope".to_string(), accept_encodings: vec!["identity".to_string()] },
    );
    assert!(matches!(r2, Err(Error::AssetNotFound)));
}

#[test]
fn chunk_witness_is_self_described_cbor() {
    let caller = me();
    let mut st = init(caller.clone());
    store(&mut st, &caller, 1, arg("/w", "identity", b"bytes")).unwrap();
    let req = HttpRequest {
        method: "GET".to_string(),
        url: "/w".to_string(),
        headers: vec![],
        body: vec![],
    };
    let resp = http_request(&st, &req, &Some(vec![1, 2]), &vec![3]).unwrap();
    let ic = resp
        .headers
        .iter()
        .find(|(n, _)| n == "IC-Certificate")
        .map(|(_, v)| v.clone())
        .unwrap();
    // pull the serialized tree out of the header and check the CBOR tag
    let tree_part = ic.split(":, tree=:").nth(1).unwrap();
    let tree_b64 = tree_part.split(':').next().unwrap();
    let tree_bytes = base64::decode(tree_b64).unwrap();
    assert_eq!(&tree_bytes[0..3], &[0xd9, 0xd9, 0xf7]);
}
