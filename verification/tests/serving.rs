use asset_store::http::http_request;
use asset_store::http::http_request_streaming_callback;
use asset_store::store::commit_batch;
use asset_store::store::create_batch;
use asset_store::store::create_chunk;
use asset_store::store::get_public_asset_for_url;
use asset_store::types::CommitBatch;
use asset_store::types::HeaderField;
use asset_store::types::HttpRequest;
use asset_store::types::InitAssetKey;
use asset_store::types::Principal;
use asset_store::types::State;
use asset_store::types::StreamingCallbackToken;
use asset_store::types::UploadChunk;
use asset_store::url::build_url;
use asset_store::url::map_alternative_paths;
use asset_store::url::map_url;
use sha2::Digest as _;

fn caller() -> Principal {
    Principal { id: vec![4, 4] }
}

fn publish(state: &mut State, path: &str, chunks: &[&[u8]], token: Option<&str>) {
    let who = caller();
    let b = create_batch(
        state,
        &who,
        InitAssetKey {
            name: String::from("n"),
            full_path: String::from(path),
            token: token.map(String::from),
            collection: String::from("docs"),
            encoding_type: None,
            description: String::from("d"),
        },
        0,
    )
    .expect("batch creation should succeed");
    let mut ids = Vec::new();
    for chunk in chunks {
        ids.push(
            create_chunk(
                state,
                &who,
                UploadChunk { batch_id: b, content: chunk.to_vec(), order_id: None },
                0,
            )
            .expect("chunk upload should succeed"),
        );
    }
    commit_batch(
        state,
        &who,
        CommitBatch { batch_id: b, headers: vec![HeaderField(String::from("x-k"), String::from("v"))], chunk_ids: ids },
        0,
    )
    .expect("commit should succeed");
}

fn get(state: &State, url: &str) -> asset_store::types::HttpResponse {
    http_request(
        state,
        HttpRequest {
            method: String::from("GET"),
            url: String::from(url),
            headers: Vec::new(),
            body: Vec::new(),
        },
    )
}

#[test]
fn end_to_end_upload_then_serve_then_stream() {
    let mut state = State::default();
    publish(&mut state, "/a.txt", &[b"hello", b" world"], None);

    let response = get(&state, "/a.txt");
    assert_eq!(response.status_code, 200);
    assert_eq!(response.body, b"hello".to_vec());
    let token = response.streaming_token.expect("a second chunk should yield a token");
    assert_eq!(token.index, 1);
    assert_eq!(token.full_path, "/a.txt");

    let next = http_request_streaming_callback(&state, token).expect("stream should resume");
    assert_eq!(next.body, b" world".to_vec());
    assert!(next.token.is_none());
}

#[test]
fn single_chunk_response_has_no_streaming_token() {
    let mut state = State::default();
    publish(&mut state, "/one.txt", &[b"all of it"], None);
    let response = get(&state, "/one.txt");
    assert_eq!(response.status_code, 200);
    assert_eq!(response.body, b"all of it".to_vec());
    assert!(response.streaming_token.is_none());
    assert_eq!(response.headers.len(), 1);
    assert_eq!(response.headers[0].0, "x-k");
    assert_eq!(response.headers[0].1, "v");
}

#[test]
fn non_get_method_is_refused() {
    let mut state = State::default();
    publish(&mut state, "/a.txt", &[b"hello"], None);
    let response = http_request(
        &state,
        HttpRequest {
            method: String::from("POST"),
            url: String::from("/a.txt"),
            headers: Vec::new(),
            body: Vec::new(),
        },
    );
    assert_eq!(response.status_code, 405);
}

#[test]
fn missing_asset_is_not_found() {
    let state = State::default();
    let response = get(&state, "/nothing.txt");
    assert_eq!(response.status_code, 404);
}

#[test]
fn no_matching_encoding_is_server_error() {
    let mut state = State::default();
    let who = caller();
    let b = create_batch(
        &mut state,
        &who,
        InitAssetKey {
            name: String::from("n"),
            full_path: String::from("/gz.txt"),
            token: None,
            collection: String::from("docs"),
            encoding_type: Some(String::from("gzip")),
            description: String::from("d"),
        },
        0,
    )
    .unwrap();
    let c = create_chunk(
        &mut state,
        &who,
        UploadChunk { batch_id: b, content: b"zipped".to_vec(), order_id: None },
        0,
    )
    .unwrap();
    commit_batch(
        &mut state,
        &who,
        CommitBatch { batch_id: b, headers: Vec::new(), chunk_ids: vec![c] },
        0,
    )
    .unwrap();

    // no accept-encoding header: only the identity fallback is tried
    let response = get(&state, "/gz.txt");
    assert_eq!(response.status_code, 500);

    // an accept-encoding offer of gzip serves the stored encoding
    let response = http_request(
        &state,
        HttpRequest {
            method: String::from("GET"),
            url: String::from("/gz.txt"),
            headers: vec![HeaderField(String::from("Accept-Encoding"), String::from("gzip, deflate"))],
            body: Vec::new(),
        },
    );
    assert_eq!(response.status_code, 200);
    assert_eq!(response.body, b"zipped".to_vec());
}

#[test]
fn alias_resolves_html_companion() {
    let mut state = State::default();
    publish(&mut state, "/about.html", &[b"<html>about</html>"], None);
    let response = get(&state, "/about");
    assert_eq!(response.status_code, 200);
    assert_eq!(response.body, b"<html>about</html>".to_vec());
}

#[test]
fn alias_resolves_directory_index() {
    let mut state = State::default();
    publish(&mut state, "/about/index.html", &[b"<html>index</html>"], None);
    let response = get(&state, "/about/");
    assert_eq!(response.status_code, 200);
    assert_eq!(response.body, b"<html>index</html>".to_vec());
}

#[test]
fn path_with_extension_skips_alias_expansion() {
    let mut state = State::default();
    publish(&mut state, "/style.css.html", &[b"not css"], None);
    let response = get(&state, "/style.css");
    assert_eq!(response.status_code, 404);
    assert!(map_alternative_paths(&String::from("/style.css")).is_empty());
}

#[test]
fn alternative_path_candidates_are_ordered() {
    assert_eq!(
        map_alternative_paths(&String::from("/about")),
        vec![String::from("/about.html"), String::from("/about/index.html")]
    );
    assert_eq!(
        map_alternative_paths(&String::from("/about/")),
        vec![String::from("/about/index.html")]
    );
    assert!(map_alternative_paths(&String::from("/about.html")).is_empty());
}

#[test]
fn map_url_extracts_path_and_token() {
    let m = map_url(&String::from("/a/b?x=1&token=abc&token=zzz")).expect("url should parse");
    assert_eq!(m.path, "/a/b");
    assert_eq!(m.token, Some(String::from("abc")));

    let m = map_url(&String::from("relative.txt")).expect("relative url should parse");
    assert_eq!(m.path, "/relative.txt");
    assert_eq!(m.token, None);
}

#[test]
fn build_url_prefixes_base_and_slash() {
    assert_eq!(build_url(&String::from("/a")), "http://localhost/a");
    assert_eq!(build_url(&String::from("a")), "http://localhost/a");
}

#[test]
fn empty_url_is_an_error() {
    let state = State::default();
    let r = get_public_asset_for_url(&state, String::new());
    assert_eq!(r.err(), Some(String::from("No url provided.")));
}

#[test]
fn token_gated_serving_through_url() {
    let mut state = State::default();
    publish(&mut state, "/s.txt", &[b"secret"], Some("T"));

    let response = get(&state, "/s.txt");
    assert_eq!(response.status_code, 404);

    let response = get(&state, "/s.txt?token=T");
    assert_eq!(response.status_code, 200);
    assert_eq!(response.body, b"secret".to_vec());

    let response = get(&state, "/s.txt?token=wrong");
    assert_eq!(response.status_code, 404);
}

#[test]
fn streaming_callback_fails_when_asset_vanished() {
    let state = State::default();
    let token = StreamingCallbackToken {
        full_path: String::from("/gone.txt"),
        token: None,
        headers: Vec::new(),
        index: 1,
        sha256: None,
        encoding_type: String::from("identity"),
    };
    let r = http_request_streaming_callback(&state, token);
    assert_eq!(r.err(), Some(String::from("Streamed asset not found.")));
}

#[test]
fn streaming_callback_fails_when_chunk_vanished() {
    let mut state = State::default();
    publish(&mut state, "/short.txt", &[b"only one"], None);
    let token = StreamingCallbackToken {
        full_path: String::from("/short.txt"),
        token: None,
        headers: Vec::new(),
        index: 5,
        sha256: None,
        encoding_type: String::from("identity"),
    };
    let r = http_request_streaming_callback(&state, token);
    assert_eq!(r.err(), Some(String::from("Streamed chunk not found.")));
}

#[test]
fn digest_matches_direct_sha256_of_streamed_body() {
    let mut state = State::default();
    publish(&mut state, "/sum.bin", &[b"first ", b"second"], None);
    let asset = asset_store::store::get_public_asset(&state, String::from("/sum.bin"), None).unwrap();
    let enc = &asset.encodings.iter().find(|(l, _)| l == "identity").unwrap().1;
    let expected: [u8; 32] = sha2::Sha256::digest(b"first second").into();
    assert_eq!(enc.sha256, expected);
    assert_eq!(enc.total_length, 12);
}
