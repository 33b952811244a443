use certified_assets::state::{
    commit_batch, create_batch, create_chunk, do_set_asset_content, get, get_chunk,
    get_chunks_info, init, list, retrieve, store,
};
use certified_assets::tree::rb_root_hash;
use certified_assets::types::{
    BatchOperation, CommitBatchArguments, CreateAssetArguments, CreateChunkArg, Error, GetArg,
    GetChunkArg, GetChunksInfoArg, SetAssetContentArguments, StoreArg,
};
use sha2::Digest;

fn me() -> Vec<u8> {
    vec![9, 9, 9]
}

fn store_arg(key: &str, enc: &str, content: &[u8]) -> StoreArg {
    StoreArg {
        key: key.to_string(),
        content_type: "text/plain".to_string(),
        content_encoding: enc.to_string(),
        content: content.to_vec(),
        sha256: None,
    }
}

#[test]
fn single_shot_store_round_trip() {
    let caller = me();
    let mut st = init(caller.clone());
    let root_before = st.certified_data.clone();
    let r = store(&mut st, &caller, 1, store_arg("/a.txt", "identity", b"hello"));
    assert!(r.is_ok());
    let root_after = st.certified_data.clone();
    assert_ne!(root_before, root_after);

    let got = retrieve(&st, &"/a.txt".to_string()).unwrap();
    assert_eq!(got.bytes().as_slice(), b"hello");

    let listing = list(&st);
    assert_eq!(listing.len(), 1);
    assert_eq!(listing[0].key, "/a.txt");
    assert_eq!(listing[0].encodings.len(), 1);
    assert_eq!(listing[0].encodings[0].length, 5);
    assert_eq!(listing[0].encodings[0].content_encoding, "identity");
}

#[test]
fn store_verifies_supplied_digest() {
    let caller = me();
    let mut st = init(caller.clone());
    let mut arg = store_arg("/d.txt", "identity", b"data");
    arg.sha256 = Some(vec![0u8; 32]);
    assert_eq!(store(&mut st, &caller, 1, arg), Err(Error::Sha256Mismatch));

    let good = sha2::Sha256::digest(b"data").to_vec();
    let mut arg2 = store_arg("/d.txt", "identity", b"data");
    arg2.sha256 = Some(good);
    assert!(store(&mut st, &caller, 1, arg2).is_ok());
}

#[test]
fn unauthorized_store_is_rejected() {
    let caller = me();
    let mut st = init(caller.clone());
    let outsider = vec![1, 2, 3];
    let r = store(&mut st, &outsider, 1, store_arg("/a.txt", "identity", b"hello"));
    assert_eq!(r, Err(Error::NotAuthorized));
    assert_eq!(r.unwrap_err().message(), "Caller is not authorized");
    assert!(matches!(
        retrieve(&st, &"/a.txt".to_string()),
        Err(Error::AssetNotFound)
    ));
}

#[test]
fn chunked_upload() {
    let caller = me();
    let mut st = init(caller.clone());
    let b = create_batch(&mut st, &caller, 0).unwrap().batch_id;
    let c1 = create_chunk(
        &mut st,
        &caller,
        0,
        CreateChunkArg { batch_id: b, content: b"AAAA".to_vec(), sha256: None },
    )
    .unwrap()
    .chunk_id;
    let c2 = create_chunk(
        &mut st,
        &caller,
        0,
        CreateChunkArg { batch_id: b, content: b"BBBB".to_vec(), sha256: None },
    )
    .unwrap()
    .chunk_id;
    let ops = vec![
        BatchOperation::CreateAsset(CreateAssetArguments {
            key: "/x".to_string(),
            content_type: "application/octet-stream".to_string(),
        }),
        BatchOperation::SetAssetContent(SetAssetContentArguments {
            key: "/x".to_string(),
            content_encoding: "identity".to_string(),
            chunk_ids: vec![c1, c2],
            sha256: None,
        }),
    ];
    commit_batch(&mut st, 0, CommitBatchArguments { batch_id: b, operations: ops }).unwrap();

    let first = get_chunk(
        &st,
        &GetChunkArg {
            key: "/x".to_string(),
            content_encoding: "identity".to_string(),
            index: 0,
            sha256: None,
        },
    )
    .unwrap();
    assert_eq!(first.content.bytes().as_slice(), b"AAAA");
    let second = get_chunk(
        &st,
        &GetChunkArg {
            key: "/x".to_string(),
            content_encoding: "identity".to_string(),
            index: 1,
            sha256: None,
        },
    )
    .unwrap();
    assert_eq!(second.content.bytes().as_slice(), b"BBBB");

    let info = get_chunks_info(
        &st,
        &GetChunksInfoArg { key: "/x".to_string(), content_encoding: "identity".to_string() },
    )
    .unwrap();
    assert_eq!(info.total_length, 8);
    assert_eq!(info.chunks.len(), 2);
    assert_eq!(info.chunks[0].chunk_length, 4);

    // the encoding digest equals the chunk-hash tree's root
    let got = get(
        &st,
        &GetArg { key: "/x".to_string(), accept_encodings: vec!["identity".to_string()] },
    )
    .unwrap();
    let digest = got.sha256.unwrap();
    let tree = st.chunk_hashes.get("/x").unwrap();
    assert_eq!(rb_root_hash(tree), digest);
}

#[test]
fn batch_expiry_drops_chunks() {
    let caller = me();
    let mut st = init(caller.clone());
    let b1 = create_batch(&mut st, &caller, 0).unwrap().batch_id;
    let c1 = create_chunk(
        &mut st,
        &caller,
        0,
        CreateChunkArg { batch_id: b1, content: b"ZZ".to_vec(), sha256: None },
    )
    .unwrap()
    .chunk_id;
    // 301 seconds later a new batch sweeps the idle one and its chunk away
    let later = 301_000_000_000u64;
    let _b2 = create_batch(&mut st, &caller, later).unwrap().batch_id;
    let r = create_chunk(
        &mut st,
        &caller,
        later,
        CreateChunkArg { batch_id: b1, content: b"YY".to_vec(), sha256: None },
    );
    assert_eq!(r.map(|x| x.chunk_id), Err(Error::BatchNotFound));
    let r2 = do_set_asset_content(
        &mut st,
        later,
        SetAssetContentArguments {
            key: "/gone".to_string(),
            content_encoding: "identity".to_string(),
            chunk_ids: vec![c1],
            sha256: None,
        },
    );
    assert_eq!(r2, Err(Error::AssetNotFound));
}

#[test]
fn set_asset_content_needs_chunks() {
    let caller = me();
    let mut st = init(caller.clone());
    certified_assets::state::do_create_asset(
        &mut st,
        CreateAssetArguments {
            key: "/e".to_string(),
            content_type: "text/plain".to_string(),
        },
    )
    .unwrap();
    let r = do_set_asset_content(
        &mut st,
        0,
        SetAssetContentArguments {
            key: "/e".to_string(),
            content_encoding: "identity".to_string(),
            chunk_ids: vec![],
            sha256: None,
        },
    );
    assert_eq!(r, Err(Error::EncodingMustHaveChunk));
    assert_eq!(
        r.unwrap_err().message(),
        "encoding must have at least one chunk"
    );
}

#[test]
fn reused_chunk_id_aborts() {
    let caller = me();
    let mut st = init(caller.clone());
    let b = create_batch(&mut st, &caller, 0).unwrap().batch_id;
    let c1 = create_chunk(
        &mut st,
        &caller,
        0,
        CreateChunkArg { batch_id: b, content: b"AA".to_vec(), sha256: None },
    )
    .unwrap()
    .chunk_id;
    let ops = vec![
        BatchOperation::CreateAsset(CreateAssetArguments {
            key: "/dup".to_string(),
            content_type: "text/plain".to_string(),
        }),
        BatchOperation::SetAssetContent(SetAssetContentArguments {
            key: "/dup".to_string(),
            content_encoding: "identity".to_string(),
            chunk_ids: vec![c1, c1],
            sha256: None,
        }),
    ];
    let r = commit_batch(&mut st, 0, CommitBatchArguments { batch_id: b, operations: ops });
    assert_eq!(r, Err(Error::ChunkNotFound));
}

#[test]
fn create_chunk_checks_digest_shape() {
    let caller = me();
    let mut st = init(caller.clone());
    let b = create_batch(&mut st, &caller, 0).unwrap().batch_id;
    let r = create_chunk(
        &mut st,
        &caller,
        0,
        CreateChunkArg { batch_id: b, content: b"AA".to_vec(), sha256: Some(vec![1, 2, 3]) },
    );
    assert_eq!(r.map(|x| x.chunk_id), Err(Error::InvalidSha256));
}

#[test]
fn encoding_priority_prefers_identity() {
    let caller = me();
    let mut st = init(caller.clone());
    store(&mut st, &caller, 1, store_arg("/y", "gzip", b"GZBYTES")).unwrap();
    {
        let asset = st.assets.get("/y").unwrap();
        assert!(asset.encodings.get("gzip").unwrap().certified);
    }
    store(&mut st, &caller, 2, store_arg("/y", "identity", b"IDBYTES")).unwrap();
    {
        let asset = st.assets.get("/y").unwrap();
        assert!(!asset.encodings.get("gzip").unwrap().certified);
        assert!(asset.encodings.get("identity").unwrap().certified);
    }
}

#[test]
fn upgrade_preserves_observable_state() {
    let caller = me();
    let mut st = init(caller.clone());
    store(&mut st, &caller, 1, store_arg("/keep.txt", "identity", b"kept")).unwrap();
    let root_before = st.certified_data.clone();
    let stable = certified_assets::state::pre_upgrade(st);
    let st2 = certified_assets::state::post_upgrade(stable);
    assert_eq!(
        retrieve(&st2, &"/keep.txt".to_string()).unwrap().bytes().as_slice(),
        b"kept"
    );
    let listing = list(&st2);
    assert_eq!(listing.len(), 1);
    assert_eq!(st2.certified_data, root_before);
}

#[test]
fn stable_check_accepts_good_record_and_rejects_bad() {
    let caller = me();
    let mut st = init(caller.clone());
    store(&mut st, &caller, 1, store_arg("/s.txt", "identity", b"stable")).unwrap();
    store(&mut st, &caller, 1, store_arg("/u.txt", "identity", b"other")).unwrap();
    let mut stable = certified_assets::state::pre_upgrade(st);
    assert!(certified_assets::state::stable_check(&stable));

    // a record with two entries under one key is refused
    let k0 = stable.stable_assets.entries[0].0.clone();
    stable.stable_assets.entries[1].0 = k0;
    assert!(!certified_assets::state::stable_check(&stable));
}

#[test]
fn stable_check_rejects_broken_chunk_layout() {
    let caller = me();
    let mut st = init(caller.clone());
    store(&mut st, &caller, 1, store_arg("/t.txt", "identity", b"body")).unwrap();
    let mut stable = certified_assets::state::pre_upgrade(st);
    let (_, asset) = &mut stable.stable_assets.entries[0];
    let (_, enc) = &mut asset.encodings.entries[0];
    enc.total_length = 99;
    assert!(!certified_assets::state::stable_check(&stable));
}
