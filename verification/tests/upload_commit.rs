use asset_store::store::commit_batch;
use asset_store::store::create_batch;
use asset_store::store::create_chunk;
use asset_store::store::get_public_asset;
use asset_store::types::Asset;
use asset_store::types::CommitBatch;
use asset_store::types::CommitBatchError;
use asset_store::types::CreateBatchError;
use asset_store::types::CreateChunkError;
use asset_store::types::InitAssetKey;
use asset_store::types::Principal;
use asset_store::types::State;
use asset_store::types::UploadChunk;
use asset_store::types::BATCH_EXPIRY_NANOS;
use sha2::Digest;

fn owner() -> Principal {
    Principal { id: vec![1, 2, 3] }
}

fn init_key(path: &str, collection: &str, encoding: Option<&str>, token: Option<&str>) -> InitAssetKey {
    InitAssetKey {
        name: String::from("name"),
        full_path: String::from(path),
        token: token.map(String::from),
        collection: String::from(collection),
        encoding_type: encoding.map(String::from),
        description: String::from("desc"),
    }
}

fn upload(state: &mut State, caller: &Principal, batch_id: u128, content: &[u8], order_id: Option<u128>, now: u64) -> u128 {
    create_chunk(
        state,
        caller,
        UploadChunk { batch_id, content: content.to_vec(), order_id },
        now,
    )
    .expect("chunk upload should succeed")
}

fn commit(state: &mut State, caller: &Principal, batch_id: u128, chunk_ids: Vec<u128>, now: u64) -> Result<(), CommitBatchError> {
    commit_batch(
        state,
        caller,
        CommitBatch { batch_id, headers: Vec::new(), chunk_ids },
        now,
    )
}

fn published(state: &State, path: &str) -> Asset {
    get_public_asset(state, String::from(path), None).expect("asset should be published")
}

fn identity_encoding(asset: &Asset) -> &asset_store::types::AssetEncoding {
    &asset
        .encodings
        .iter()
        .find(|(label, _)| label == "identity")
        .expect("identity encoding should exist")
        .1
}

#[test]
fn first_batch_and_chunk_ids_are_one() {
    let mut state = State::default();
    let caller = owner();
    let batch_id = create_batch(&mut state, &caller, init_key("/a.txt", "docs", None, None), 0)
        .expect("batch creation should succeed");
    assert_eq!(batch_id, 1);
    let chunk_id = upload(&mut state, &caller, batch_id, b"hello", None, 0);
    assert_eq!(chunk_id, 1);
}

#[test]
fn ascending_order_ids_commit_content_in_order() {
    let mut state = State::default();
    let caller = owner();
    let b = create_batch(&mut state, &caller, init_key("/a.bin", "docs", None, None), 0).unwrap();
    let c1 = upload(&mut state, &caller, b, b"ab", Some(1), 0);
    let c2 = upload(&mut state, &caller, b, b"cd", Some(2), 0);
    let c3 = upload(&mut state, &caller, b, b"ef", Some(3), 0);
    commit(&mut state, &caller, b, vec![c1, c2, c3], 0).expect("commit should succeed");
    let asset = published(&state, "/a.bin");
    let enc = identity_encoding(&asset);
    assert_eq!(enc.content_chunks, vec![b"ab".to_vec(), b"cd".to_vec(), b"ef".to_vec()]);
    assert_eq!(enc.total_length, 6);
    let expected: [u8; 32] = sha2::Sha256::digest(b"abcdef").into();
    assert_eq!(enc.sha256, expected);
}

#[test]
fn chunks_are_sorted_by_order_id() {
    let mut state = State::default();
    let caller = owner();
    let b = create_batch(&mut state, &caller, init_key("/s.bin", "docs", None, None), 0).unwrap();
    let c1 = upload(&mut state, &caller, b, b"second", Some(9), 0);
    let c2 = upload(&mut state, &caller, b, b"first", Some(2), 0);
    commit(&mut state, &caller, b, vec![c1, c2], 0).unwrap();
    let asset = published(&state, "/s.bin");
    let enc = identity_encoding(&asset);
    assert_eq!(enc.content_chunks, vec![b"first".to_vec(), b"second".to_vec()]);
}

#[test]
fn equal_order_ids_keep_listed_order() {
    let mut state = State::default();
    let caller = owner();
    let b = create_batch(&mut state, &caller, init_key("/t.bin", "docs", None, None), 0).unwrap();
    let c1 = upload(&mut state, &caller, b, b"B", Some(5), 0);
    let c2 = upload(&mut state, &caller, b, b"A", Some(5), 0);
    commit(&mut state, &caller, b, vec![c1, c2], 0).unwrap();
    let asset = published(&state, "/t.bin");
    let enc = identity_encoding(&asset);
    assert_eq!(enc.content_chunks, vec![b"B".to_vec(), b"A".to_vec()]);
}

#[test]
fn identical_content_twice_yields_identical_digest() {
    let mut state = State::default();
    let caller = owner();
    let b1 = create_batch(&mut state, &caller, init_key("/p.txt", "docs", None, None), 0).unwrap();
    let c1 = upload(&mut state, &caller, b1, b"same content", None, 0);
    commit(&mut state, &caller, b1, vec![c1], 0).unwrap();
    let first = identity_encoding(&published(&state, "/p.txt")).sha256;
    let first_len = identity_encoding(&published(&state, "/p.txt")).total_length;

    let b2 = create_batch(&mut state, &caller, init_key("/p.txt", "docs", None, None), 7).unwrap();
    let c2 = upload(&mut state, &caller, b2, b"same content", None, 7);
    commit(&mut state, &caller, b2, vec![c2], 7).unwrap();
    let second = identity_encoding(&published(&state, "/p.txt")).sha256;
    let second_len = identity_encoding(&published(&state, "/p.txt")).total_length;

    assert_eq!(first, second);
    assert_eq!(first_len, second_len);
}

#[test]
fn collection_mismatch_rejects_and_preserves_asset() {
    let mut state = State::default();
    let caller = owner();
    let b1 = create_batch(&mut state, &caller, init_key("/c.txt", "docs", None, None), 0).unwrap();
    let c1 = upload(&mut state, &caller, b1, b"original", None, 0);
    commit(&mut state, &caller, b1, vec![c1], 0).unwrap();

    let b2 = create_batch(&mut state, &caller, init_key("/c.txt", "images", None, None), 0).unwrap();
    let c2 = upload(&mut state, &caller, b2, b"intruder", None, 0);
    let r = commit(&mut state, &caller, b2, vec![c2], 0);
    assert_eq!(r, Err(CommitBatchError::CollectionMismatch));

    let asset = published(&state, "/c.txt");
    assert_eq!(asset.key.collection, "docs");
    assert_eq!(identity_encoding(&asset).content_chunks, vec![b"original".to_vec()]);
}

#[test]
fn expired_batch_cannot_commit_and_is_purged_by_next_creation() {
    let mut state = State::default();
    let caller = owner();
    let b = create_batch(&mut state, &caller, init_key("/e.txt", "docs", None, None), 0).unwrap();
    let c = upload(&mut state, &caller, b, b"late", None, 0);
    let after_expiry = BATCH_EXPIRY_NANOS + 1;
    let r = commit(&mut state, &caller, b, vec![c], after_expiry);
    assert_eq!(r, Err(CommitBatchError::Expired));

    let b2 = create_batch(&mut state, &caller, init_key("/f.txt", "docs", None, None), after_expiry)
        .unwrap();
    assert_eq!(b2, 2);
    assert!(asset_store::runtime::get_batch(&state, b).is_none());
    assert!(asset_store::runtime::get_chunk(&state, c).is_none());
}

#[test]
fn chunk_upload_slides_expiry_forward() {
    let mut state = State::default();
    let caller = owner();
    let b = create_batch(&mut state, &caller, init_key("/g.txt", "docs", None, None), 0).unwrap();
    let refresh_at = BATCH_EXPIRY_NANOS - 1;
    let c = upload(&mut state, &caller, b, b"kept alive", None, refresh_at);
    let late_but_fine = BATCH_EXPIRY_NANOS + 5;
    commit(&mut state, &caller, b, vec![c], late_but_fine).expect("refreshed batch should commit");
}

#[test]
fn unsupported_encoding_is_rejected_before_id_allocation() {
    let mut state = State::default();
    let caller = owner();
    let r = create_batch(&mut state, &caller, init_key("/u.txt", "docs", Some("zip77"), None), 0);
    assert_eq!(r, Err(CreateBatchError::UnsupportedEncoding));
    let b = create_batch(&mut state, &caller, init_key("/u.txt", "docs", Some("gzip"), None), 0)
        .unwrap();
    assert_eq!(b, 1);
}

#[test]
fn second_encoding_is_added_and_first_kept() {
    let mut state = State::default();
    let caller = owner();
    let b1 = create_batch(&mut state, &caller, init_key("/m.txt", "docs", None, None), 0).unwrap();
    let c1 = upload(&mut state, &caller, b1, b"plain", None, 0);
    commit(&mut state, &caller, b1, vec![c1], 0).unwrap();

    let b2 = create_batch(&mut state, &caller, init_key("/m.txt", "docs", Some("gzip"), None), 9)
        .unwrap();
    let c2 = upload(&mut state, &caller, b2, b"squeezed", None, 9);
    commit(&mut state, &caller, b2, vec![c2], 9).unwrap();

    let asset = published(&state, "/m.txt");
    assert_eq!(asset.encodings.len(), 2);
    assert_eq!(identity_encoding(&asset).content_chunks, vec![b"plain".to_vec()]);
    let gz = &asset.encodings.iter().find(|(l, _)| l == "gzip").unwrap().1;
    assert_eq!(gz.content_chunks, vec![b"squeezed".to_vec()]);
    assert_eq!(asset.created_at, 0);
    assert_eq!(asset.updated_at, 9);
}

#[test]
fn chunk_upload_errors() {
    let mut state = State::default();
    let caller = owner();
    let stranger = Principal { id: vec![9] };
    let r = create_chunk(
        &mut state,
        &caller,
        UploadChunk { batch_id: 42, content: b"x".to_vec(), order_id: None },
        0,
    );
    assert_eq!(r, Err(CreateChunkError::BatchNotFound));

    let b = create_batch(&mut state, &caller, init_key("/o.txt", "docs", None, None), 0).unwrap();
    let r = create_chunk(
        &mut state,
        &stranger,
        UploadChunk { batch_id: b, content: b"x".to_vec(), order_id: None },
        0,
    );
    assert_eq!(r, Err(CreateChunkError::NotOwner));
}

#[test]
fn commit_errors() {
    let mut state = State::default();
    let caller = owner();
    let stranger = Principal { id: vec![9] };

    assert_eq!(commit(&mut state, &caller, 7, vec![], 0), Err(CommitBatchError::BatchNotFound));

    let b = create_batch(&mut state, &caller, init_key("/w.txt", "docs", None, None), 0).unwrap();
    assert_eq!(commit(&mut state, &stranger, b, vec![], 0), Err(CommitBatchError::NotOwner));
    assert_eq!(commit(&mut state, &caller, b, vec![55], 0), Err(CommitBatchError::ChunkNotFound));
    assert_eq!(commit(&mut state, &caller, b, vec![], 0), Err(CommitBatchError::Empty));

    let b2 = create_batch(&mut state, &caller, init_key("/x.txt", "docs", None, None), 0).unwrap();
    let foreign = upload(&mut state, &caller, b2, b"not yours", None, 0);
    assert_eq!(
        commit(&mut state, &caller, b, vec![foreign], 0),
        Err(CommitBatchError::ChunkOutsideBatch)
    );
}

#[test]
fn token_protected_asset_requires_exact_token() {
    let mut state = State::default();
    let caller = owner();
    let b = create_batch(
        &mut state,
        &caller,
        init_key("/secret.txt", "docs", None, Some("T")),
        0,
    )
    .unwrap();
    let c = upload(&mut state, &caller, b, b"classified", None, 0);
    commit(&mut state, &caller, b, vec![c], 0).unwrap();

    assert!(get_public_asset(&state, String::from("/secret.txt"), Some(String::from("T"))).is_some());
    assert!(get_public_asset(&state, String::from("/secret.txt"), Some(String::from("t"))).is_none());
    assert!(get_public_asset(&state, String::from("/secret.txt"), Some(String::from("TT"))).is_none());
    assert!(get_public_asset(&state, String::from("/secret.txt"), None).is_none());
}

#[test]
fn tokenless_asset_ignores_supplied_token() {
    let mut state = State::default();
    let caller = owner();
    let b = create_batch(&mut state, &caller, init_key("/open.txt", "docs", None, None), 0).unwrap();
    let c = upload(&mut state, &caller, b, b"public", None, 0);
    commit(&mut state, &caller, b, vec![c], 0).unwrap();

    assert!(get_public_asset(&state, String::from("/open.txt"), None).is_some());
    assert!(get_public_asset(&state, String::from("/open.txt"), Some(String::from("whatever"))).is_some());
}
