use certified_assets::http::{http_request, http_request_streaming_callback};
use certified_assets::state::{
    commit_batch, create_batch, create_chunk, init, store, State,
};
use certified_assets::types::{
    BatchOperation, CommitBatchArguments, CreateAssetArguments, CreateChunkArg, HttpRequest,
    SetAssetContentArguments, StoreArg, StreamingStrategy,
};

fn me() -> Vec<u8> {
    vec![9, 9, 9]
}

fn cert() -> Option<Vec<u8>> {
    Some(vec![0xCA, 0xFE, 0x42])
}

fn principal() -> Vec<u8> {
    vec![7, 7]
}

fn request(url: &str, headers: Vec<(String, String)>) -> HttpRequest {
    HttpRequest { method: "GET".to_string(), url: url.to_string(), headers, body: vec![] }
}

fn store_text(st: &mut State, key: &str, enc: &str, content: &[u8]) {
    let caller = me();
    store(
        st,
        &caller,
        1,
        StoreArg {
            key: key.to_string(),
            content_type: "text/plain".to_string(),
            content_encoding: enc.to_string(),
            content: content.to_vec(),
            sha256: None,
        },
    )
    .unwrap();
}

fn chunked_x(st: &mut State) {
    let caller = me();
    let b = create_batch(st, &caller, 0).unwrap().batch_id;
    let c1 = create_chunk(
        st,
        &caller,
        0,
        CreateChunkArg { batch_id: b, content: b"AAAA".to_vec(), sha256: None },
    )
    .unwrap()
    .chunk_id;
    let c2 = create_chunk(
        st,
        &caller,
        0,
        CreateChunkArg { batch_id: b, content: b"BBBB".to_vec(), sha256: None },
    )
    .unwrap()
    .chunk_id;
    let ops = vec![
        BatchOperation::CreateAsset(CreateAssetArguments {
            key: "/x".to_string(),
            content_type: "application/octet-stream".to_string(),
        }),
        BatchOperation::SetAssetContent(SetAssetContentArguments {
            key: "/x".to_string(),
            content_encoding: "identity".to_string(),
            chunk_ids: vec![c1, c2],
            sha256: None,
        }),
    ];
    commit_batch(st, 0, CommitBatchArguments { batch_id: b, operations: ops }).unwrap();
}

#[test]
fn plain_request_serves_identity() {
    let mut st = init(me());
    store_text(&mut st, "/a.txt", "identity", b"hello");
    let resp = http_request(&st, &request("/a.txt", vec![]), &cert(), &principal()).unwrap();
    assert_eq!(resp.status_code, 200);
    assert_eq!(resp.body.bytes().as_slice(), b"hello");
    assert_eq!(resp.headers[0].0, "Content-Type");
    assert_eq!(resp.headers[0].1, "text/plain");
    assert!(resp.streaming_strategy.is_none());
}

#[test]
fn missing_asset_is_certified_404() {
    let mut st = init(me());
    store_text(&mut st, "/other.txt", "identity", b"other");
    let resp = http_request(&st, &request("/missing", vec![]), &cert(), &principal()).unwrap();
    assert_eq!(resp.status_code, 404);
    assert_eq!(resp.body.bytes().as_slice(), b"not found");
    assert_eq!(resp.headers.len(), 1);
    assert_eq!(resp.headers[0].0, "IC-Certificate");
}

#[test]
fn range_request_serves_second_chunk() {
    let mut st = init(me());
    chunked_x(&mut st);
    let headers = vec![("Range".to_string(), "bytes=5-6".to_string())];
    let resp = http_request(&st, &request("/x", headers), &cert(), &principal()).unwrap();
    assert_eq!(resp.status_code, 206);
    assert_eq!(resp.body.bytes().as_slice(), b"BBBB");
    let cr = resp
        .headers
        .iter()
        .find(|(n, _)| n == "Content-Range")
        .map(|(_, v)| v.clone())
        .unwrap();
    assert_eq!(cr, "bytes 4-7/8");
    let ar = resp
        .headers
        .iter()
        .find(|(n, _)| n == "Accept-Ranges")
        .map(|(_, v)| v.clone())
        .unwrap();
    assert_eq!(ar, "bytes");
    // the second chunk is the last one: no continuation
    assert!(resp.streaming_strategy.is_none());
}

#[test]
fn streaming_continuation_walks_chunks() {
    let mut st = init(me());
    chunked_x(&mut st);
    let resp = http_request(&st, &request("/x", vec![]), &cert(), &principal()).unwrap();
    assert_eq!(resp.status_code, 200);
    assert_eq!(resp.body.bytes().as_slice(), b"AAAA");
    let token = match resp.streaming_strategy {
        Some(StreamingStrategy::Callback { callback, token }) => {
            assert_eq!(callback.method, "http_request_streaming_callback");
            assert_eq!(callback.principal, principal());
            token
        },
        None => panic!("expected a continuation"),
    };
    assert_eq!(token.index, 1);
    let next = http_request_streaming_callback(&st, &token).unwrap();
    assert_eq!(next.body.bytes().as_slice(), b"BBBB");
    assert!(next.token.is_none());
    assert!(!next.chunk_tree.is_empty());
}

#[test]
fn spa_fallback_serves_index() {
    let mut st = init(me());
    store_text(&mut st, "/index.html", "identity", b"INDEX");
    let resp = http_request(&st, &request("/missing", vec![]), &cert(), &principal()).unwrap();
    assert_eq!(resp.status_code, 200);
    assert_eq!(resp.body.bytes().as_slice(), b"INDEX");
    let ic = resp
        .headers
        .iter()
        .find(|(n, _)| n == "IC-Certificate")
        .map(|(_, v)| v.clone())
        .unwrap();
    // the header carries the host certificate in base64 and both witnesses
    assert!(ic.starts_with("certificate=:"));
    assert!(ic.contains(&base64::encode(&cert().unwrap())));
    assert!(ic.contains(":, tree=:"));
    assert!(ic.contains(":, chunk_tree=:"));
    assert!(ic.contains(":, chunk_index=:0:"));
}

#[test]
fn encoding_priority_over_http() {
    let mut st = init(me());
    store_text(&mut st, "/y", "gzip", b"GZBYTES");
    store_text(&mut st, "/y", "identity", b"IDBYTES");
    let headers = vec![("Accept-Encoding".to_string(), "gzip".to_string())];
    let resp = http_request(&st, &request("/y", headers), &cert(), &principal()).unwrap();
    assert_eq!(resp.status_code, 200);
    // identity is the sole certified encoding, so its body is served
    assert_eq!(resp.body.bytes().as_slice(), b"IDBYTES");
}

#[test]
fn bad_percent_encoding_is_400() {
    let st = init(me());
    let resp = http_request(&st, &request("/bad%zz", vec![]), &cert(), &principal()).unwrap();
    assert_eq!(resp.status_code, 400);
    assert_eq!(
        resp.body.bytes().as_slice(),
        b"failed to decode path '/bad%zz': invalid percent encoding"
    );
}

#[test]
fn query_string_is_ignored() {
    let mut st = init(me());
    store_text(&mut st, "/a.txt", "identity", b"hello");
    let resp = http_request(&st, &request("/a.txt?v=1", vec![]), &cert(), &principal()).unwrap();
    assert_eq!(resp.status_code, 200);
    assert_eq!(resp.body.bytes().as_slice(), b"hello");
}
