//! Request-URL handling: parsing against a fixed base, extraction of the
//! reserved `token` query parameter, and alias-path expansion for
//! extensionless paths.

use crate::text::ends_with;
use crate::text::ends_with_char;
use crate::text::starts_with_slash;
use crate::text::str_ends_with;
use crate::types::opt_string_view;
use crate::types::MapUrl;
use vstd::prelude::*;

verus! {

// ---------------------------------------------------------------------------
// What the URL parser returns, named but not modelled.
// ---------------------------------------------------------------------------
/// Whether the absolute URL string parses.
pub uninterp spec fn url_parse_ok(s: Seq<char>) -> bool;

/// The path of the parsed URL, query and fragment stripped.
pub uninterp spec fn url_parse_path(s: Seq<char>) -> Seq<char>;

/// The decoded query pairs of the parsed URL, in order.
pub uninterp spec fn url_parse_query_pairs(s: Seq<char>) -> Seq<(Seq<char>, Seq<char>)>;

pub open spec fn pairs_view(v: Seq<(String, String)>) -> Seq<(Seq<char>, Seq<char>)> {
    v.map_values(|p: (String, String)| (p.0@, p.1@))
}

/// Relies on `url::Url::parse`, `Url::path` and `Url::query_pairs`: parses
/// the absolute URL string and hands back its path and its decoded query
/// pairs in order; all three are functions of the string alone.
#[verifier::external_body]
fn parse_absolute_url(absolute: &String) -> (r: Option<(String, Vec<(String, String)>)>)
    ensures
        r is Some <==> url_parse_ok(absolute@),
        r matches Option::Some(p) ==> p.0@ == url_parse_path(absolute@) && pairs_view(p.1@)
            == url_parse_query_pairs(absolute@),
{
    match url::Url::parse(absolute.as_str()) {
        Err(_) => Option::None,
        Ok(parsed) => {
            let mut pairs: Vec<(String, String)> = Vec::new();
            for (name, value) in parsed.query_pairs() {
                pairs.push((name.into_owned(), value.into_owned()));
            }
            Option::Some((parsed.path().to_string(), pairs))
        },
    }
}

/// The absolute form of a request URL: the fixed base, a separating slash
/// where the URL lacks one, then the URL.
pub open spec fn absolute_url_of(u: Seq<char>) -> Seq<char> {
    if u.len() > 0 && u[0] == '/' {
        "http://localhost"@ + u
    } else {
        "http://localhost"@ + "/"@ + u
    }
}

/// The first value carried under the reserved `token` query name.
pub open spec fn first_token(pairs: Seq<(Seq<char>, Seq<char>)>) -> Option<Seq<char>>
    decreases pairs.len(),
{
    if pairs.len() == 0 {
        Option::None
    } else if pairs[0].0 == "token"@ {
        Option::Some(pairs[0].1)
    } else {
        first_token(pairs.skip(1))
    }
}

/// Ensure the path always begins with a slash before the base is prepended.
fn separator<'a>(url: &str) -> (r: &'a str)
    ensures
        (url@.len() > 0 && url@[0] == '/') ==> r@ == ""@,
        !(url@.len() > 0 && url@[0] == '/') ==> r@ == "/"@,
{
    if starts_with_slash(url) {
        ""
    } else {
        "/"
    }
}

/// The URL joined onto the fixed base, ready for the parser.
pub fn build_url(url: &String) -> (r: String)
    ensures
        r@ == absolute_url_of(url@),
{
    let sep = separator(url.as_str());
    let r = String::from_str("http://localhost").concat(sep).concat(url.as_str());
    proof {
        reveal_strlit("");
        if url@.len() > 0 && url@[0] == '/' {
            assert(("http://localhost"@ + ""@) + url@ =~= "http://localhost"@ + url@);
        } else {
            assert(("http://localhost"@ + "/"@) + url@ =~= "http://localhost"@ + "/"@ + url@);
        }
    }
    r
}

/// Find the reserved query name `token` among the parsed pairs.
fn map_token(pairs: &Vec<(String, String)>) -> (r: Option<String>)
    ensures
        opt_string_view(r) == first_token(pairs_view(pairs@)),
{
    let ghost m = pairs_view(pairs@);
    let mut i: usize = 0;
    while i < pairs.len()
        invariant
            0 <= i <= pairs.len(),
            m == pairs_view(pairs@),
            forall|j: int| 0 <= j < i ==> (#[trigger] m[j]).0 != "token"@,
        decreases pairs.len() - i,
    {
        if crate::text::str_eq(pairs[i].0.as_str(), "token") {
            proof {
                lemma_first_token_skip(m, i as int);
                assert(m.skip(i as int)[0] == m[i as int]);
            }
            return Option::Some(pairs[i].1.clone());
        }
        i += 1;
    }
    proof {
        lemma_first_token_skip(m, m.len() as int);
        assert(first_token(m.skip(m.len() as int)) is None);
    }
    Option::None
}

proof fn lemma_first_token_skip(m: Seq<(Seq<char>, Seq<char>)>, i: int)
    requires
        0 <= i <= m.len(),
        forall|j: int| 0 <= j < i ==> (#[trigger] m[j]).0 != "token"@,
    ensures
        first_token(m) == first_token(m.skip(i)),
    decreases i,
{
    if i > 0 {
        lemma_first_token_skip(m.skip(1), i - 1);
        assert(m.skip(1).skip(i - 1) =~= m.skip(i));
    } else {
        assert(m.skip(0) =~= m);
    }
}

/// Parse a request URL against the fixed base: the path, and the first
/// `token` query value if any. Fails exactly when the joined URL does not
/// parse.
pub fn map_url(url: &String) -> (r: Result<MapUrl, String>)
    ensures
        r is Ok <==> url_parse_ok(absolute_url_of(url@)),
        r matches Result::Ok(m) ==> m.path@ == url_parse_path(absolute_url_of(url@))
            && opt_string_view(m.token) == first_token(
            url_parse_query_pairs(absolute_url_of(url@)),
        ),
        r matches Result::Err(e) ==> e@ == "Url "@ + url@ + " cannot be parsed."@,
{
    let absolute = build_url(url);
    match parse_absolute_url(&absolute) {
        Option::None => {
            let msg = String::from_str("Url ").concat(url.as_str()).concat(
                " cannot be parsed.",
            );
            Result::Err(msg)
        },
        Option::Some((path, pairs)) => {
            let token = map_token(&pairs);
            Result::Ok(MapUrl { path, token })
        },
    }
}

// ---------------------------------------------------------------------------
// Alias expansion.
// ---------------------------------------------------------------------------
/// The last path segment once trailing slashes are dropped: the region in
/// which a file extension is looked for.
pub open spec fn ext_region(s: Seq<char>) -> Seq<char> {
    let t = rstrip_slashes(s);
    match last_slash(t) {
        Option::None => t,
        Option::Some(i) => t.skip(i + 1),
    }
}

pub open spec fn rstrip_slashes(s: Seq<char>) -> Seq<char>
    decreases s.len(),
{
    if s.len() > 0 && s[s.len() - 1] == '/' {
        rstrip_slashes(s.drop_last())
    } else {
        s
    }
}

pub open spec fn last_slash(s: Seq<char>) -> Option<int>
    decreases s.len(),
{
    if s.len() == 0 {
        Option::None
    } else if s[s.len() - 1] == '/' {
        Option::Some(s.len() - 1)
    } else {
        last_slash(s.drop_last())
    }
}

/// A path has a file extension when its last segment is not `..` and holds a
/// dot after its first character.
pub open spec fn has_extension(s: Seq<char>) -> bool {
    let f = ext_region(s);
    f != ".."@ && exists|i: int| 0 < i < f.len() && #[trigger] f[i] == '.'
}

/// The alias candidates of a path: `index.html` under a directory path, the
/// `.html` companion and `index.html` child of an extensionless path.
pub open spec fn aliases_of_spec(s: Seq<char>) -> Seq<Seq<char>> {
    if s.len() > 0 && s[s.len() - 1] == '/' {
        seq![s + "index.html"@]
    } else if !ends_with(s, ".html"@) {
        seq![s + ".html"@, s + "/index.html"@]
    } else {
        Seq::empty()
    }
}

/// The ordered candidates tried before the literal path: none when the path
/// carries an extension, the aliases otherwise.
pub open spec fn alternative_paths(s: Seq<char>) -> Seq<Seq<char>> {
    if has_extension(s) {
        Seq::empty()
    } else {
        aliases_of_spec(s)
    }
}

pub open spec fn strings_view(v: Seq<String>) -> Seq<Seq<char>> {
    v.map_values(|s: String| s@)
}

/// Whether the path's last segment carries a file extension.
fn path_has_extension(path: &str) -> (r: bool)
    ensures
        r == has_extension(path@),
{
    let n = path.unicode_len();
    assert(path@.take(n as int) =~= path@);
    // drop trailing slashes
    let mut e: usize = n;
    while e > 0 && path.get_char(e - 1) == '/'
        invariant
            0 <= e <= n,
            n == path@.len(),
            rstrip_slashes(path@) == rstrip_slashes(path@.take(e as int)),
        decreases e,
    {
        proof {
            assert(path@.take(e as int).drop_last() =~= path@.take(e - 1));
        }
        e -= 1;
    }
    proof {
        assert(path@.take(n as int) =~= path@);
        if e > 0 {
            assert(rstrip_slashes(path@.take(e as int)) == path@.take(e as int));
        } else {
            assert(path@.take(0) =~= Seq::<char>::empty());
            assert(rstrip_slashes(path@.take(0)) == path@.take(0));
        }
    }
    let ghost t = rstrip_slashes(path@);
    assert(t == path@.take(e as int));
    // find the last slash within the stripped prefix
    let mut k: usize = e;
    while k > 0 && path.get_char(k - 1) != '/'
        invariant
            0 <= k <= e <= n,
            n == path@.len(),
            t == path@.take(e as int),
            last_slash(t) == last_slash(path@.take(k as int)),
            forall|j: int| k <= j < e ==> path@[j] != '/',
        decreases k,
    {
        proof {
            assert(path@.take(k as int).drop_last() =~= path@.take(k - 1));
        }
        k -= 1;
    }
    proof {
        if k > 0 {
            assert(path@.take(k as int)[k - 1] == '/');
            assert(last_slash(path@.take(k as int)) == Option::Some(k - 1));
            assert(ext_region(path@) =~= t.skip(k as int));
        } else {
            assert(path@.take(0) =~= Seq::<char>::empty());
            assert(last_slash(path@.take(0)) is None);
            assert(ext_region(path@) =~= t.skip(0));
        }
        assert(ext_region(path@) =~= path@.subrange(k as int, e as int));
    }
    let ghost f = ext_region(path@);
    // is the segment `..`?
    let is_dot_dot = e - k == 2 && path.get_char(k) == '.' && path.get_char(k + 1) == '.';
    proof {
        reveal_strlit("..");
        assert((f == ".."@) <==> is_dot_dot) by {
            if is_dot_dot {
                assert(f =~= ".."@);
            }
            if f == ".."@ {
                assert(path@[k as int] == f[0] && path@[k + 1] == f[1]);
            }
        }
    }
    if is_dot_dot {
        return false;
    }
    // look for a dot after the segment's first character
    let mut j: usize = k + 1;
    while j < e
        invariant
            k < j <= e <= n || (k == e && j == k + 1),
            n == path@.len(),
            f == path@.subrange(k as int, e as int),
            f == ext_region(path@),
            f != ".."@,
            forall|l: int| k < l < j && l < e ==> path@[l] != '.',
        decreases e - j,
    {
        if path.get_char(j) == '.' {
            assert(f[j - k] == path@[j as int]);
            return true;
        }
        j += 1;
    }
    proof {
        assert forall|i: int| 0 < i < f.len() implies f[i] != '.' by {
            assert(f[i] == path@[k + i]);
        }
    }
    false
}

/// The alias candidates of `key`, in the order they are tried.
fn aliases_of(key: &String) -> (r: Vec<String>)
    ensures
        strings_view(r@) == aliases_of_spec(key@),
{
    let mut out: Vec<String> = Vec::new();
    if ends_with_char(key.as_str(), '/') {
        out.push(key.clone().concat("index.html"));
        assert(strings_view(out@) =~= seq![key@ + "index.html"@]);
    } else if !str_ends_with(key.as_str(), ".html") {
        out.push(key.clone().concat(".html"));
        out.push(key.clone().concat("/index.html"));
        assert(strings_view(out@) =~= seq![key@ + ".html"@, key@ + "/index.html"@]);
    } else {
        assert(strings_view(out@) =~= Seq::<Seq<char>>::empty());
    }
    out
}

/// The ordered candidate paths tried before the literal path: empty for a
/// path with a file extension, otherwise the aliases of the path.
pub fn map_alternative_paths(path: &String) -> (r: Vec<String>)
    ensures
        strings_view(r@) == alternative_paths(path@),
{
    if path_has_extension(path.as_str()) {
        let out: Vec<String> = Vec::new();
        assert(strings_view(out@) =~= Seq::<Seq<char>>::empty());
        out
    } else {
        aliases_of(path)
    }
}

} // verus!
