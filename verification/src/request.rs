//! The parts of a raw request that the reader decodes: query pairs, the path
//! of a web asset, the listing cursor and the name offered for a download.
use vstd::prelude::*;
use crate::protocol::Error;
use crate::text::{push_str, same_text, to_chars};

verus! {

/// `url::form_urlencoded::parse(query.as_bytes())`, each name and value
/// decoded to text, in order.
pub uninterp spec fn form_pairs(query: Seq<char>) -> Seq<(Seq<char>, Seq<char>)>;

/// `percent_encoding::percent_decode_str(path).decode_utf8()`: the decoded
/// text, or `None` where the decoded bytes are not UTF-8.
pub uninterp spec fn percent_decoded(path: Seq<char>) -> Option<Seq<char>>;

/// `utf8_percent_encode(name, NON_ALPHANUMERIC)` as text.
pub uninterp spec fn percent_encoded_name(name: Seq<char>) -> Seq<char>;

/// URL-safe base64 without padding (`URL_SAFE_NO_PAD` of the `base64` crate).
pub open spec fn b64url_encode(bytes: Seq<u8>) -> Seq<char> {
    crate::text::b64_encode(bytes, true, false)
}

/// Names and values of query pairs as text.
pub open spec fn pairs_view(s: Seq<(String, String)>) -> Seq<(Seq<char>, Seq<char>)> {
    s.map_values(|p: (String, String)| (p.0@, p.1@))
}

/// The name and value pairs of a query string, by the `url` crate.
#[verifier::external_body]
fn form_urlencoded_pairs(query: &str) -> (r: Vec<(String, String)>)
    ensures
        pairs_view(r@) == form_pairs(query@),
{
    url::form_urlencoded::parse(query.as_bytes()).into_owned().collect()
}

/// The percent-decoded text of a path, by the `percent-encoding` crate.
#[verifier::external_body]
fn decode_path(path: &str) -> (r: Option<String>)
    ensures
        match r {
            Some(s) => percent_decoded(path@) == Some(s@),
            None => percent_decoded(path@) is None,
        },
{
    percent_encoding::percent_decode_str(path).decode_utf8().ok().map(|s| s.into_owned())
}

/// A name with every character but ASCII letters and digits percent-encoded
/// as UTF-8, by the `percent-encoding` crate.
#[verifier::external_body]
fn encode_name(name: &str) -> (r: String)
    ensures
        r@ == percent_encoded_name(name@),
{
    percent_encoding::utf8_percent_encode(name, percent_encoding::NON_ALPHANUMERIC).to_string()
}

/// URL-safe base64 without padding, decoded by the `base64` crate, which
/// accepts exactly the canonical encodings (no padding, no trailing bits) and
/// gives back the bytes encoded.
#[verifier::external_body]
fn b64url_decode_bytes(text: &str) -> (r: Option<Vec<u8>>)
    ensures
        match r {
            Some(b) => b64url_encode(b@) == text@,
            None => forall|b: Seq<u8>| #[trigger] b64url_encode(b) != text@,
        },
{
    base64::Engine::decode(&base64::engine::general_purpose::URL_SAFE_NO_PAD, text).ok()
}

/// URL-safe base64 without padding, encoded by the `base64` crate.
#[verifier::external_body]
fn b64url_encode_bytes(bytes: &[u8]) -> (r: String)
    ensures
        r@ == b64url_encode(bytes@),
{
    base64::Engine::encode(&base64::engine::general_purpose::URL_SAFE_NO_PAD, bytes)
}

/// The pairs of a request's query (none without a query), in order.
pub fn query_pairs(query: Option<&str>) -> (r: Vec<(String, String)>)
    ensures
        pairs_view(r@) == match query {
            Some(q) => form_pairs(q@),
            None => form_pairs(Seq::empty()),
        },
{
    match query {
        Some(q) => form_urlencoded_pairs(q),
        None => {
            let empty = "";
            proof {
                reveal_strlit("");
            }
            assert(empty@ =~= Seq::<char>::empty());
            form_urlencoded_pairs(empty)
        },
    }
}

/// The value of the last pair named `name`: a later pair overrides an
/// earlier one.
pub open spec fn last_value(s: Seq<(Seq<char>, Seq<char>)>, name: Seq<char>) -> Option<Seq<char>>
    decreases s.len(),
{
    if s.len() == 0 {
        None
    } else if s.last().0 == name {
        Some(s.last().1)
    } else {
        last_value(s.drop_last(), name)
    }
}

/// The value a query gives to `name`, if any.
pub fn query_value(pairs: &Vec<(String, String)>, name: &str) -> (r: Option<String>)
    ensures
        match r {
            Some(v) => last_value(pairs_view(pairs@), name@) == Some(v@),
            None => last_value(pairs_view(pairs@), name@) is None,
        },
{
    let key = to_chars(name);
    let mut i: usize = pairs.len();
    assert(pairs_view(pairs@).take(i as int) =~= pairs_view(pairs@));
    while i > 0
        invariant
            key@ == name@,
            i <= pairs@.len(),
            last_value(pairs_view(pairs@), name@) == last_value(pairs_view(pairs@).take(i as int), name@),
        decreases i,
    {
        let ghost t = pairs_view(pairs@).take(i as int);
        assert(t.last() == (pairs@[i - 1].0@, pairs@[i - 1].1@));
        if same_text(&to_chars(pairs[i - 1].0.as_str()), &key) {
            return Some(pairs[i - 1].1.clone());
        }
        assert(t.drop_last() =~= pairs_view(pairs@).take(i - 1));
        i = i - 1;
    }
    assert(pairs_view(pairs@).take(0) =~= Seq::<(Seq<char>, Seq<char>)>::empty());
    None
}

/// The text without its leading slashes.
pub open spec fn trim_slashes(s: Seq<char>) -> Seq<char>
    decreases s.len(),
{
    if s.len() > 0 && s[0] == '/' {
        trim_slashes(s.drop_first())
    } else {
        s
    }
}

/// A finished component is kept unless it is empty or `.`.
pub open spec fn close_part(ps: Seq<Seq<char>>, cur: Seq<char>) -> Seq<Seq<char>> {
    if cur.len() == 0 || cur == seq!['.'] {
        ps
    } else {
        ps.push(cur)
    }
}

/// Components read so far and the one being read.
pub open spec fn scan_parts(s: Seq<char>) -> (Seq<Seq<char>>, Seq<char>)
    decreases s.len(),
{
    if s.len() == 0 {
        (Seq::empty(), Seq::empty())
    } else {
        let (ps, cur) = scan_parts(s.drop_last());
        if s.last() == '/' {
            (close_part(ps, cur), Seq::empty())
        } else {
            (ps, cur.push(s.last()))
        }
    }
}

/// The components of a relative path as `std::path::Path` yields them
/// after the first: separated by `/`, empty and `.` components skipped.
pub open spec fn path_parts(s: Seq<char>) -> Seq<Seq<char>> {
    close_part(scan_parts(s).0, scan_parts(s).1)
}

/// A relative path whose first component is `.`.
pub open spec fn leading_dot(s: Seq<char>) -> bool {
    s.len() > 0 && s[0] == '.' && (s.len() == 1 || s[1] == '/')
}

/// The asset a path names, as its components: the path is percent-decoded
/// and its leading slashes dropped; one that does not decode, or with a `..`
/// or leading `.` component, is refused.
pub open spec fn asset_parts(pathname: Seq<char>) -> Option<Seq<Seq<char>>> {
    match percent_decoded(pathname) {
        None => None,
        Some(d) => {
            let t = trim_slashes(d);
            if leading_dot(t) || path_parts(t).contains(seq!['.', '.']) {
                None
            } else {
                Some(path_parts(t))
            }
        },
    }
}

/// Texts of a sequence of strings.
pub open spec fn texts(s: Seq<String>) -> Seq<Seq<char>> {
    s.map_values(|x: String| x@)
}

fn refused_asset() -> (r: Error)
    ensures
        r.code == "FORBIDDEN" && r.message@ == "Asset refus\u{e9}."@ && r.status == 403,
{
    Error::of("FORBIDDEN", "Asset refus\u{e9}.", 403)
}

/// The components of the web asset a request path names: FORBIDDEN (403)
/// where the path does not decode or a component is not a plain name.
pub fn asset_target(pathname: &str) -> (r: Result<Vec<String>, Error>)
    ensures
        match asset_parts(pathname@) {
            None => r matches Err(e) && e.code == "FORBIDDEN" && e.message@ == "Asset refus\u{e9}."@
                && e.status == 403,
            Some(p) => r matches Ok(v) && texts(v@) == p,
        },
{
    let decoded = match decode_path(pathname) {
        None => return Err(refused_asset()),
        Some(d) => d,
    };
    let d = to_chars(decoded.as_str());
    let mut k: usize = 0;
    assert(d@.skip(0) =~= d@);
    while k < d.len() && d[k] == '/'
        invariant
            k <= d@.len(),
            trim_slashes(d@) == trim_slashes(d@.skip(k as int)),
        decreases d@.len() - k,
    {
        assert(d@.skip(k as int).drop_first() =~= d@.skip(k + 1));
        k = k + 1;
    }
    let ghost t = d@.skip(k as int);
    assert(trim_slashes(t) == t);
    if k < d.len() && d[k] == '.' && (k + 1 == d.len() || d[k + 1] == '/') {
        return Err(refused_asset());
    }
    let mut parts: Vec<String> = Vec::new();
    let mut cur: Vec<char> = Vec::new();
    let mut i: usize = k;
    assert(t.take(0) =~= Seq::<char>::empty());
    assert(texts(parts@) =~= Seq::<Seq<char>>::empty());
    assert(cur@ =~= Seq::<char>::empty());
    while i < d.len()
        invariant
            k <= i <= d@.len(),
            t == d@.skip(k as int),
            (texts(parts@), cur@) == scan_parts(t.take(i - k)),
        decreases d@.len() - i,
    {
        assert(t.take(i - k + 1).drop_last() =~= t.take(i - k));
        assert(t.take(i - k + 1).last() == d@[i as int]);
        if d[i] == '/' {
            if !(cur.len() == 0 || (cur.len() == 1 && cur[0] == '.')) {
                parts.push(crate::text::from_chars(&cur));
                assert(texts(parts@) =~= texts(parts@).drop_last().push(cur@));
            } else {
                assert(cur@.len() == 0 || cur@ =~= seq!['.']);
            }
            proof {
                if !(cur@.len() == 0 || cur@ == seq!['.']) {
                    assert(!(cur.len() == 0 || (cur.len() == 1 && cur[0] == '.')));
                }
            }
            cur = Vec::new();
        } else {
            cur.push(d[i]);
        }
        i = i + 1;
    }
    assert(t.take(i - k) =~= t);
    if !(cur.len() == 0 || (cur.len() == 1 && cur[0] == '.')) {
        parts.push(crate::text::from_chars(&cur));
        assert(texts(parts@) =~= texts(parts@).drop_last().push(cur@));
    } else {
        assert(cur@.len() == 0 || cur@ =~= seq!['.']);
    }
    assert(texts(parts@) == path_parts(t));
    assert(d@ == decoded@);
    assert(!leading_dot(t));
    let dots = ['.', '.'];
    assert(dots@ =~= seq!['.', '.']);
    let mut j: usize = 0;
    while j < parts.len()
        invariant
            j <= parts@.len(),
            dots@ == seq!['.', '.'],
            texts(parts@) == path_parts(t),
            percent_decoded(pathname@) == Some(d@),
            trim_slashes(d@) == t,
            !leading_dot(t),
            forall|x: int| 0 <= x < j ==> (#[trigger] texts(parts@)[x]) != seq!['.', '.'],
        decreases parts@.len() - j,
    {
        if same_text(&to_chars(parts[j].as_str()), &dots) {
            assert(texts(parts@)[j as int] == seq!['.', '.']);
            return Err(refused_asset());
        }
        j = j + 1;
    }
    assert(!texts(parts@).contains(seq!['.', '.']));
    Ok(parts)
}

/// The bytes a listing cursor carries: those whose URL-safe base64 it is, or
/// `None` where it encodes no bytes.
pub fn decode_cursor_bytes(encoded: &str) -> (r: Option<Vec<u8>>)
    ensures
        match r {
            Some(b) => b64url_encode(b@) == encoded@,
            None => forall|b: Seq<u8>| #[trigger] b64url_encode(b) != encoded@,
        },
{
    b64url_decode_bytes(encoded)
}

/// The text of a listing cursor carrying `bytes`.
pub fn encode_cursor_bytes(bytes: &[u8]) -> (r: String)
    ensures
        r@ == b64url_encode(bytes@),
{
    b64url_encode_bytes(bytes)
}

/// The `Content-Disposition` of a download: a fixed ASCII file name, and the
/// real name percent-encoded as UTF-8.
pub fn content_disposition(name: &str) -> (r: String)
    ensures
        r@ == "attachment; filename=\"log.log\"; filename*=UTF-8''"@ + percent_encoded_name(name@),
{
    let mut out = String::new();
    let prefix = "attachment; filename=\"log.log\"; filename*=UTF-8''";
    push_str(&mut out, prefix);
    let encoded = encode_name(name);
    push_str(&mut out, encoded.as_str());
    assert(out@ =~= prefix@ + encoded@);
    out
}

} // verus!
