//! HTTP-style serving: method gate, encoding negotiation from request
//! headers, response construction, and the stateless streaming continuation.

use crate::model::slookup;
use crate::model::lemma_slookup_is_entry;
use crate::store::encodings_view;
use crate::store::get_public_asset;
use crate::store::get_public_asset_for_url;
use crate::store::protected_asset;
use crate::store::resolve_candidates;
use crate::text::clone_bytes;
use crate::text::eq_ignore_case;
use crate::text::is_space;
use crate::text::str_eq;
use crate::text::str_eq_ignore_case;
use crate::text::trim;
use crate::text::trim_end;
use crate::text::trim_start;
use crate::types::asset_wf;
use crate::types::clone_headers;
use crate::types::headers_view;
use crate::types::opt_string_view;
use crate::types::Asset;
use crate::types::AssetEncoding;
use crate::types::AssetEncodingV;
use crate::types::AssetKey;
use crate::types::AssetKeyV;
use crate::types::AssetV;
use crate::types::HeaderField;
use crate::types::HttpRequest;
use crate::types::HttpResponse;
use crate::types::PublicAsset;
use crate::types::State;
use crate::types::StreamingCallbackHttpResponse;
use crate::types::StreamingCallbackToken;
use crate::types::StreamingCallbackTokenV;
use crate::url::absolute_url_of;
use crate::url::alternative_paths;
use crate::url::first_token;
use crate::url::strings_view;
use crate::url::url_parse_ok;
use crate::url::url_parse_path;
use crate::url::url_parse_query_pairs;
use vstd::prelude::*;
use vstd::string::StringSliceAdditionalSpecFns;

verus! {

// ---------------------------------------------------------------------------
// Splitting a comma-separated header value.
// ---------------------------------------------------------------------------
pub open spec fn first_comma(s: Seq<char>) -> Option<int>
    decreases s.len(),
{
    if s.len() == 0 {
        Option::None
    } else if s[0] == ',' {
        Option::Some(0)
    } else {
        match first_comma(s.skip(1)) {
            Option::None => Option::None,
            Option::Some(i) => Option::Some(i + 1),
        }
    }
}

pub proof fn lemma_first_comma(s: Seq<char>)
    ensures
        match first_comma(s) {
            Option::Some(i) => 0 <= i < s.len() && s[i] == ',' && forall|j: int|
                0 <= j < i ==> s[j] != ',',
            Option::None => forall|j: int| 0 <= j < s.len() ==> s[j] != ',',
        },
    decreases s.len(),
{
    if s.len() > 0 && s[0] != ',' {
        lemma_first_comma(s.skip(1));
        match first_comma(s.skip(1)) {
            Option::None => {
                assert forall|j: int| 0 <= j < s.len() implies s[j] != ',' by {
                    if j > 0 {
                        assert(s.skip(1)[j - 1] == s[j]);
                    }
                }
            },
            Option::Some(i) => {
                assert(s.skip(1)[i] == s[i + 1]);
                assert forall|j: int| 0 <= j < i + 1 implies s[j] != ',' by {
                    if j > 0 {
                        assert(s.skip(1)[j - 1] == s[j]);
                    }
                }
            },
        }
    }
}

proof fn lemma_first_comma_at(s: Seq<char>, q: int)
    requires
        0 <= q <= s.len(),
        q < s.len() ==> s[q] == ',',
        forall|j: int| 0 <= j < q ==> s[j] != ',',
    ensures
        q < s.len() ==> first_comma(s) == Option::Some(q),
        q == s.len() ==> first_comma(s) is None,
{
    lemma_first_comma(s);
    if q < s.len() {
        match first_comma(s) {
            Option::None => {
                assert(false);
            },
            Option::Some(i) => {
                assert(!(i < q));
                assert(!(q < i));
            },
        }
    } else {
        match first_comma(s) {
            Option::Some(i) => {
                assert(s[i] == ',');
                assert(false);
            },
            Option::None => {
            },
        }
    }
}

/// The comma-separated pieces of a header value, in order; an empty value or
/// a trailing comma contributes an empty piece.
pub open spec fn split_commas(s: Seq<char>) -> Seq<Seq<char>>
    decreases s.len(),
    via split_commas_dec
{
    match first_comma(s) {
        Option::None => seq![s],
        Option::Some(i) => seq![s.take(i)] + split_commas(s.skip(i + 1)),
    }
}

#[via_fn]
proof fn split_commas_dec(s: Seq<char>) {
    lemma_first_comma(s);
}

/// The encoding labels offered by the request headers, in order: the
/// comma-separated, trimmed pieces of every `accept-encoding` header
/// (compared without regard to ASCII case).
pub open spec fn accept_encodings(headers: Seq<(Seq<char>, Seq<char>)>) -> Seq<Seq<char>>
    decreases headers.len(),
{
    if headers.len() == 0 {
        Seq::empty()
    } else {
        accept_encodings(headers.drop_last()) + (if eq_ignore_case(
            headers.last().0,
            "accept-encoding"@,
        ) {
            split_commas(headers.last().1).map_values(|p: Seq<char>| trim(p))
        } else {
            Seq::empty()
        })
    }
}

/// The preference list a request induces: the offered labels, then the
/// uncompressed fallback.
pub open spec fn pref_list(headers: Seq<(Seq<char>, Seq<char>)>) -> Seq<Seq<char>> {
    accept_encodings(headers).push("identity"@)
}

/// The first preferred label that the asset stores, with its encoding.
pub open spec fn select_encoding(
    encs: Seq<(Seq<char>, AssetEncodingV)>,
    prefs: Seq<Seq<char>>,
) -> Option<(Seq<char>, AssetEncodingV)>
    decreases prefs.len(),
{
    if prefs.len() == 0 {
        Option::None
    } else {
        match slookup(encs, prefs[0]) {
            Option::Some(e) => Option::Some((prefs[0], e)),
            Option::None => select_encoding(encs, prefs.skip(1)),
        }
    }
}

proof fn lemma_select_encoding_skip(
    encs: Seq<(Seq<char>, AssetEncodingV)>,
    prefs: Seq<Seq<char>>,
    i: int,
)
    requires
        0 <= i <= prefs.len(),
        forall|j: int| 0 <= j < i ==> slookup(encs, #[trigger] prefs[j]) is None,
    ensures
        select_encoding(encs, prefs) == select_encoding(encs, prefs.skip(i)),
    decreases i,
{
    if i > 0 {
        lemma_select_encoding_skip(encs, prefs.skip(1), i - 1);
        assert(prefs.skip(1).skip(i - 1) =~= prefs.skip(i));
    } else {
        assert(prefs.skip(0) =~= prefs);
    }
}

/// The streaming token that resumes after the chunk at `index`, absent once
/// that chunk is the last.
pub open spec fn next_token(
    key: AssetKeyV,
    index: usize,
    enc: AssetEncodingV,
    label: Seq<char>,
    headers: Seq<(Seq<char>, Seq<char>)>,
) -> Option<StreamingCallbackTokenV> {
    if index + 1 >= enc.content_chunks.len() {
        Option::None
    } else {
        Option::Some(
            StreamingCallbackTokenV {
                full_path: key.full_path,
                token: key.token,
                headers,
                index: (index + 1) as usize,
                sha256: Option::Some(enc.sha256),
                encoding_type: label,
            },
        )
    }
}

pub open spec fn opt_token_view(t: Option<StreamingCallbackToken>) -> Option<
    StreamingCallbackTokenV,
> {
    match t {
        Option::None => Option::None,
        Option::Some(t) => Option::Some(t@),
    }
}

// ---------------------------------------------------------------------------
// Executable pieces.
// ---------------------------------------------------------------------------
fn trim_str(s: &str) -> (r: String)
    ensures
        r@ == trim(s@),
{
    let n = s.unicode_len();
    assert(s@.skip(0) =~= s@);
    let mut a: usize = 0;
    while a < n && (s.get_char(a) == ' ' || s.get_char(a) == '\t')
        invariant
            0 <= a <= n,
            n == s@.len(),
            trim_start(s@) == trim_start(s@.skip(a as int)),
        decreases n - a,
    {
        proof {
            assert(s@.skip(a as int).skip(1) =~= s@.skip(a + 1));
        }
        a += 1;
    }
    proof {
        if a < n {
            assert(!is_space(s@.skip(a as int)[0]));
            assert(trim_start(s@.skip(a as int)) == s@.skip(a as int));
        } else {
            assert(s@.skip(n as int).len() == 0);
            assert(trim_start(s@.skip(n as int)) == s@.skip(n as int));
            assert(s@.skip(n as int) =~= Seq::<char>::empty());
        }
    }
    let ghost t = trim_start(s@);
    assert(t =~= s@.skip(a as int));
    let mut b: usize = n;
    while b > a && (s.get_char(b - 1) == ' ' || s.get_char(b - 1) == '\t')
        invariant
            a <= b <= n,
            n == s@.len(),
            t == s@.skip(a as int),
            trim_end(t) == trim_end(s@.subrange(a as int, b as int)),
        decreases b,
    {
        proof {
            assert(s@.subrange(a as int, b as int).drop_last() =~= s@.subrange(a as int, b - 1));
            assert(s@.subrange(a as int, b as int).last() == s@[b - 1]);
        }
        b -= 1;
    }
    proof {
        let u = s@.subrange(a as int, b as int);
        if b > a {
            assert(u.last() == s@[b - 1]);
            assert(!is_space(u.last()));
            assert(trim_end(u) == u);
        } else {
            assert(u.len() == 0);
            assert(trim_end(u) == u);
        }
    }
    let piece = s.substring_char(a, b);
    let r = String::from_str(piece);
    assert(r@ =~= trim_end(trim_start(s@)));
    r
}

fn split_and_trim(value: &str) -> (r: Vec<String>)
    ensures
        strings_view(r@) == split_commas(value@).map_values(|p: Seq<char>| trim(p)),
{
    let n = value.unicode_len();
    let mut out: Vec<String> = Vec::new();
    let mut p: usize = 0;
    let mut done = false;
    proof {
        assert(value@.skip(0) =~= value@);
        assert(strings_view(out@) =~= Seq::<Seq<char>>::empty());
    }
    while !done
        invariant
            n == value@.len(),
            !done ==> 0 <= p <= n,
            !done ==> split_commas(value@).map_values(|q: Seq<char>| trim(q)) =~= strings_view(
                out@,
            ) + split_commas(value@.skip(p as int)).map_values(|q: Seq<char>| trim(q)),
            done ==> strings_view(out@) == split_commas(value@).map_values(
                |q: Seq<char>| trim(q),
            ),
        decreases n - p + (if done {
            0int
        } else {
            1int
        }),
    {
        let mut q: usize = p;
        while q < n && value.get_char(q) != ','
            invariant
                p <= q <= n,
                n == value@.len(),
                forall|j: int| p <= j < q ==> value@[j] != ',',
            decreases n - q,
        {
            q += 1;
        }
        let piece = value.substring_char(p, q);
        let trimmed = trim_str(piece);
        let ghost rest = value@.skip(p as int);
        proof {
            assert(forall|j: int| 0 <= j < q - p ==> rest[j] == value@[p + j]);
            if q < n {
                assert(rest[q - p] == value@[q as int]);
                lemma_first_comma_at(rest, q - p);
                assert(rest.take(q - p) =~= value@.subrange(p as int, q as int));
                assert(rest.skip(q - p + 1) =~= value@.skip(q + 1));
            } else {
                lemma_first_comma_at(rest, n - p);
                assert(rest =~= value@.subrange(p as int, q as int));
            }
        }
        out.push(trimmed);
        if q < n {
            proof {
                assert(split_commas(rest).map_values(|w: Seq<char>| trim(w)) =~= seq![
                    trim(value@.subrange(p as int, q as int)),
                ] + split_commas(value@.skip(q + 1)).map_values(|w: Seq<char>| trim(w)));
                assert(split_commas(value@).map_values(|w: Seq<char>| trim(w)) =~= strings_view(
                    out@,
                ) + split_commas(value@.skip(q + 1)).map_values(|w: Seq<char>| trim(w)));
            }
            p = q + 1;
        } else {
            proof {
                assert(split_commas(rest).map_values(|w: Seq<char>| trim(w)) =~= seq![
                    trim(value@.subrange(p as int, q as int)),
                ]);
                assert(strings_view(out@) =~= split_commas(value@).map_values(
                    |w: Seq<char>| trim(w),
                ));
            }
            done = true;
        }
    }
    out
}

/// The encoding preference list a request induces: every offer in its
/// `accept-encoding` headers, split on commas and trimmed, always ending in
/// the uncompressed fallback.
pub fn build_encodings(req_headers: &Vec<HeaderField>) -> (r: Vec<String>)
    ensures
        strings_view(r@) == pref_list(headers_view(req_headers@)),
{
    let ghost hv = headers_view(req_headers@);
    let mut encodings: Vec<String> = Vec::new();
    let mut i: usize = 0;
    proof {
        assert(hv.take(0) =~= Seq::<(Seq<char>, Seq<char>)>::empty());
        assert(strings_view(encodings@) =~= Seq::<Seq<char>>::empty());
    }
    while i < req_headers.len()
        invariant
            0 <= i <= req_headers.len(),
            hv == headers_view(req_headers@),
            strings_view(encodings@) == accept_encodings(hv.take(i as int)),
        decreases req_headers.len() - i,
    {
        proof {
            assert(hv.take(i + 1).drop_last() =~= hv.take(i as int));
            assert(hv.take(i + 1).last() == hv[i as int]);
        }
        if str_eq_ignore_case(req_headers[i].0.as_str(), "accept-encoding") {
            let pieces = split_and_trim(req_headers[i].1.as_str());
            let ghost base = strings_view(encodings@);
            let mut k: usize = 0;
            while k < pieces.len()
                invariant
                    0 <= k <= pieces.len(),
                    strings_view(encodings@) =~= base + strings_view(pieces@).take(k as int),
                decreases pieces.len() - k,
            {
                let ghost before = strings_view(encodings@);
                encodings.push(pieces[k].clone());
                proof {
                    assert(strings_view(encodings@) =~= before.push(pieces@[k as int]@));
                    assert(strings_view(pieces@).take(k + 1) =~= strings_view(pieces@).take(
                        k as int,
                    ).push(pieces@[k as int]@));
                    assert(base + strings_view(pieces@).take(k + 1) =~= (base + strings_view(
                        pieces@,
                    ).take(k as int)).push(pieces@[k as int]@));
                }
                k += 1;
            }
            assert(strings_view(pieces@).take(pieces.len() as int) =~= strings_view(pieces@));
            assert(strings_view(encodings@) =~= accept_encodings(hv.take(i + 1)));
        } else {
            assert(strings_view(encodings@) =~= accept_encodings(hv.take(i + 1)));
        }
        i += 1;
    }
    assert(hv.take(req_headers.len() as int) =~= hv);
    encodings.push(String::from_str("identity"));
    assert(strings_view(encodings@) =~= pref_list(hv));
    encodings
}

fn find_encoding(encodings: &Vec<(String, AssetEncoding)>, label: &String) -> (r: Option<
    AssetEncoding,
>)
    ensures
        match r {
            Option::Some(e) => slookup(encodings_view(encodings@), label@) == Option::Some(e@),
            Option::None => slookup(encodings_view(encodings@), label@) is None,
        },
{
    let ghost m = encodings_view(encodings@);
    let mut i: usize = 0;
    while i < encodings.len()
        invariant
            0 <= i <= encodings.len(),
            m == encodings_view(encodings@),
            forall|j: int| 0 <= j < i ==> (#[trigger] m[j]).0 != label@,
        decreases encodings.len() - i,
    {
        if crate::text::string_eq(&encodings[i].0, label) {
            proof {
                crate::model::lemma_slookup_skip(m, label@, i as int);
                assert(m.skip(i as int)[0] == m[i as int]);
            }
            return Option::Some(encodings[i].1.clone());
        }
        i += 1;
    }
    proof {
        crate::model::lemma_slookup_skip(m, label@, m.len() as int);
        assert(slookup(m.skip(m.len() as int), label@) is None);
    }
    Option::None
}

/// The response headers served with an asset: its stored headers, unchanged.
pub fn build_headers(asset: &Asset) -> (r: Result<Vec<HeaderField>, String>)
    ensures
        r matches Result::Ok(h) && headers_view(h@) == asset@.headers,
{
    Result::Ok(clone_headers(&asset.headers))
}

/// A well-formed error response: no body content beyond the message, no
/// streaming continuation.
pub fn error_response(status_code: u16, body: String) -> (r: HttpResponse)
    ensures
        r.status_code == status_code,
        r.body@ == vstd::utf8::encode_utf8(body@),
        r.headers@.len() == 0,
        r.streaming_token is None,
{
    let bytes = body.as_str().as_bytes_vec();
    assert(bytes@ == vstd::utf8::encode_utf8(body@));
    HttpResponse {
        body: bytes,
        headers: Vec::new(),
        status_code,
        streaming_token: Option::None,
    }
}

/// The continuation token for the chunk after `chunk_index`, if one remains.
pub fn create_token(
    key: &AssetKey,
    chunk_index: usize,
    encoding: &AssetEncoding,
    encoding_type: &String,
    headers: &Vec<HeaderField>,
) -> (r: Option<StreamingCallbackToken>)
    ensures
        opt_token_view(r) == next_token(
            key@,
            chunk_index,
            encoding@,
            encoding_type@,
            headers_view(headers@),
        ),
{
    if encoding.content_chunks.len() == 0 || chunk_index >= encoding.content_chunks.len() - 1 {
        return Option::None;
    }
    Option::Some(
        StreamingCallbackToken {
            full_path: key.full_path.clone(),
            token: crate::text::clone_opt_string(&key.token),
            headers: clone_headers(headers),
            index: chunk_index + 1,
            sha256: Option::Some(encoding.sha256),
            encoding_type: encoding_type.clone(),
        },
    )
}

/// The streaming continuation attached to a fresh response: the token for
/// the second chunk, when the encoding has one.
pub fn streaming_strategy(
    key: &AssetKey,
    encoding: &AssetEncoding,
    encoding_type: &String,
    headers: &Vec<HeaderField>,
) -> (r: Option<StreamingCallbackToken>)
    ensures
        opt_token_view(r) == next_token(
            key@,
            0,
            encoding@,
            encoding_type@,
            headers_view(headers@),
        ),
{
    create_token(key, 0, encoding, encoding_type, headers)
}

/// What a request resolves to: the candidates derived from the URL's path,
/// then the literal path, through the access gate.
pub open spec fn resolved_for_request(st: crate::types::StateV, u: Seq<char>) -> Option<AssetV> {
    let path = url_parse_path(absolute_url_of(u));
    resolve_candidates(
        st.assets,
        alternative_paths(path).push(path),
        first_token(url_parse_query_pairs(absolute_url_of(u))),
    )
}

/// Serve a request: only GET is served; the URL is resolved with alias
/// expansion and the access gate; the first acceptable encoding is chosen;
/// the response carries the encoding's first chunk and, when more chunks
/// remain, a streaming continuation token.
pub fn http_request(state: &State, request: HttpRequest) -> (r: HttpResponse)
    requires
        state.wf(),
    ensures
        ({
            let u = request.url@;
            if request.method@ != "GET"@ {
                r.status_code == 405 && r.streaming_token is None
            } else if u.len() == 0 || !url_parse_ok(absolute_url_of(u)) {
                r.status_code == 405 && r.streaming_token is None
            } else {
                match resolved_for_request(state@, u) {
                    Option::None => r.status_code == 404 && r.streaming_token is None,
                    Option::Some(asset) => match select_encoding(
                        asset.encodings,
                        pref_list(headers_view(request.headers@)),
                    ) {
                        Option::None => r.status_code == 500 && r.streaming_token is None,
                        Option::Some(sel) => {
                            &&& r.status_code == 200
                            &&& r.body@ == sel.1.content_chunks[0]
                            &&& headers_view(r.headers@) == asset.headers
                            &&& opt_token_view(r.streaming_token) == next_token(
                                asset.key,
                                0,
                                sel.1,
                                sel.0,
                                asset.headers,
                            )
                        },
                    },
                }
            }
        }),
{
    if !str_eq(request.method.as_str(), "GET") {
        return error_response(405, String::from_str("Method Not Allowed."));
    }
    let result = get_public_asset_for_url(state, request.url);
    match result {
        Result::Err(err) => error_response(
            405,
            String::from_str("Permission denied. Cannot perform this operation. ").concat(
                err.as_str(),
            ),
        ),
        Result::Ok(PublicAsset { url: requested_url, asset }) => match asset {
            Option::None => error_response(404, String::from_str("No asset found.")),
            Option::Some(asset) => {
                let ghost av = asset@;
                let ghost prefs = pref_list(headers_view(request.headers@));
                proof {
                    let u = request.url@;
                    let path = url_parse_path(absolute_url_of(u));
                    let tk = first_token(url_parse_query_pairs(absolute_url_of(u)));
                    crate::store::lemma_resolve_candidates_wf(
                        state@.assets,
                        alternative_paths(path).push(path),
                        tk,
                    );
                }
                let encodings = build_encodings(&request.headers);
                let mut i: usize = 0;
                while i < encodings.len()
                    invariant
                        0 <= i <= encodings.len(),
                        prefs == strings_view(encodings@),
                        prefs == pref_list(headers_view(request.headers@)),
                        av == asset@,
                        asset_wf(av),
                        request.method@ == "GET"@,
                        request.url@.len() > 0,
                        url_parse_ok(absolute_url_of(request.url@)),
                        resolved_for_request(state@, request.url@) == Option::Some(av),
                        forall|j: int|
                            0 <= j < i ==> slookup(av.encodings, #[trigger] prefs[j]) is None,
                    decreases encodings.len() - i,
                {
                    match find_encoding(&asset.encodings, &encodings[i]) {
                        Option::Some(encoding) => {
                            proof {
                                assert(encodings@[i as int]@ == prefs[i as int]);
                                lemma_select_encoding_skip(av.encodings, prefs, i as int);
                                assert(prefs.skip(i as int)[0] == prefs[i as int]);
                                lemma_slookup_is_entry(av.encodings, prefs[i as int]);
                                assert(select_encoding(av.encodings, prefs) == Option::Some(
                                    (prefs[i as int], encoding@),
                                ));
                            }
                            assert(encoding@.content_chunks.len() >= 1);
                            assert(encoding.content_chunks@[0]@ == encoding@.content_chunks[0]);
                            match build_headers(&asset) {
                                Result::Ok(headers) => {
                                    let token = streaming_strategy(
                                        &asset.key,
                                        &encoding,
                                        &encodings[i],
                                        &headers,
                                    );
                                    return HttpResponse {
                                        body: clone_bytes(&encoding.content_chunks[0]),
                                        headers,
                                        status_code: 200,
                                        streaming_token: token,
                                    };
                                },
                                Result::Err(err) => {
                                    return error_response(
                                        405,
                                        String::from_str(
                                            "Permission denied. Invalid headers. ",
                                        ).concat(err.as_str()),
                                    );
                                },
                            }
                        },
                        Option::None => {
                        },
                    }
                    i += 1;
                }
                proof {
                    lemma_select_encoding_skip(av.encodings, prefs, prefs.len() as int);
                    assert(select_encoding(av.encodings, prefs.skip(prefs.len() as int))
                        is None);
                }
                error_response(500, String::from_str("No asset encoding found."))
            },
        },
    }
}

/// Resume a streamed response: re-fetch the asset by the token's path and
/// access token, re-select the encoding, and serve the chunk at the token's
/// index with the token for the next one. Fails when the asset, the
/// encoding, or the chunk has vanished since the initial response.
pub fn http_request_streaming_callback(state: &State, token: StreamingCallbackToken) -> (r: Result<
    StreamingCallbackHttpResponse,
    String,
>)
    ensures
        ({
            let found = protected_asset(
                slookup(state@.assets, token.full_path@),
                opt_string_view(token.token),
            );
            match found {
                Option::None => r matches Result::Err(e) && e@ == "Streamed asset not found."@,
                Option::Some(asset) => match slookup(asset.encodings, token.encoding_type@) {
                    Option::None => r matches Result::Err(e) && e@
                        == "Streamed asset encoding not found."@,
                    Option::Some(enc) => if token.index < enc.content_chunks.len() {
                        r matches Result::Ok(resp) && resp.body@ == enc.content_chunks[token.index as int]
                            && opt_token_view(resp.token) == next_token(
                            asset.key,
                            token.index,
                            enc,
                            token.encoding_type@,
                            headers_view(token.headers@),
                        )
                    } else {
                        r matches Result::Err(e) && e@ == "Streamed chunk not found."@
                    },
                },
            }
        }),
{
    let StreamingCallbackToken { full_path, token, headers, index, sha256: _, encoding_type } =
        token;
    let asset = get_public_asset(state, full_path, token);
    match asset {
        Option::None => Result::Err(String::from_str("Streamed asset not found.")),
        Option::Some(asset) => {
            let encoding = find_encoding(&asset.encodings, &encoding_type);
            match encoding {
                Option::None => Result::Err(
                    String::from_str("Streamed asset encoding not found."),
                ),
                Option::Some(encoding) => {
                    if index >= encoding.content_chunks.len() {
                        return Result::Err(String::from_str("Streamed chunk not found."));
                    }
                    let next = create_token(&asset.key, index, &encoding, &encoding_type, &headers);
                    Result::Ok(
                        StreamingCallbackHttpResponse {
                            token: next,
                            body: clone_bytes(&encoding.content_chunks[index]),
                        },
                    )
                },
            }
        },
    }
}

} // verus!
