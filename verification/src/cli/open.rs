//! `ezagent://` URIs: parsing them into authority and path, and resolving
//! the path to a room or a message.
use vstd::prelude::*;
use crate::text::{chars_of, concat2, copy_str, find_char, first_index_of, is_prefix, string_from_range, str_eq};
use crate::uri_registry::{split_chars, split_slash};

verus! {

/// `c` has the Unicode `White_Space` property (what `char::is_whitespace`
/// tests).
pub open spec fn white_space(c: char) -> bool {
    ('\u{9}' <= c <= '\u{d}') || c == ' ' || c == '\u{85}' || c == '\u{a0}' || c == '\u{1680}'
        || ('\u{2000}' <= c <= '\u{200a}') || c == '\u{2028}' || c == '\u{2029}' || c == '\u{202f}'
        || c == '\u{205f}' || c == '\u{3000}'
}

/// Whether `c` is white space.
pub fn is_white_space(c: char) -> (r: bool)
    ensures
        r == white_space(c),
{
    ('\u{9}' <= c && c <= '\u{d}') || c == ' ' || c == '\u{85}' || c == '\u{a0}' || c == '\u{1680}'
        || ('\u{2000}' <= c && c <= '\u{200a}') || c == '\u{2028}' || c == '\u{2029}' || c == '\u{202f}'
        || c == '\u{205f}' || c == '\u{3000}'
}

/// `s` without leading white space.
pub open spec fn trim_start_ws(s: Seq<char>) -> Seq<char>
    decreases s.len(),
{
    if s.len() > 0 && white_space(s[0]) { trim_start_ws(s.drop_first()) } else { s }
}

/// `s` without trailing white space.
pub open spec fn trim_end_ws(s: Seq<char>) -> Seq<char>
    decreases s.len(),
{
    if s.len() > 0 && white_space(s.last()) { trim_end_ws(s.drop_last()) } else { s }
}

/// `s` without trailing `/`.
pub open spec fn trim_end_slashes(s: Seq<char>) -> Seq<char>
    decreases s.len(),
{
    if s.len() > 0 && s.last() == '/' { trim_end_slashes(s.drop_last()) } else { s }
}

/// The lowercase form of `s`, as `str::to_lowercase` maps it under the
/// Unicode case rules.
pub uninterp spec fn unicode_lowercase(s: Seq<char>) -> Seq<char>;

/// `str::to_lowercase`: the Unicode lowercase mapping of `s`.
#[verifier::external_body]
fn to_lowercase(s: &str) -> (r: String)
    ensures
        r@ == unicode_lowercase(s@),
{
    s.to_lowercase()
}

/// The parts of an `ezagent://` URI.
#[derive(Debug, Clone)]
pub struct ParsedUri {
    /// The authority, lowercased.
    pub authority: String,
    /// The path, `/` when the URI has none.
    pub path: String,
}

/// The scheme prefix.
pub open spec fn scheme() -> Seq<char> {
    "ezagent://"@
}

/// How `uri` parses: white space trimmed and trailing `/` dropped, then the
/// scheme, then an authority up to the first `/`, then the path. Gives the
/// error text, or the raw (not lowercased) authority and the path.
pub open spec fn uri_parts(uri: Seq<char>) -> Result<(Seq<char>, Seq<char>), Seq<char>> {
    let t = trim_end_slashes(trim_end_ws(trim_start_ws(uri)));
    if !is_prefix(scheme(), t) {
        Err("scheme must be 'ezagent://'"@)
    } else {
        let rest = t.skip(scheme().len() as int);
        let (authority, path) = match first_index_of(rest, '/') {
            Some(i) => (rest.take(i), rest.skip(i)),
            None => (rest, Seq::<char>::empty()),
        };
        if authority.len() == 0 {
            Err("missing authority"@)
        } else {
            Ok((authority, if path.len() == 0 { "/"@ } else { path }))
        }
    }
}

/// `s` with leading and trailing white space removed.
fn trim_ws(s: &[char]) -> (r: Vec<char>)
    ensures
        r@ == trim_end_ws(trim_start_ws(s@)),
{
    let mut a: usize = 0;
    assert(s@.skip(0) == s@);
    while a < s.len() && is_white_space(s[a])
        invariant
            a <= s@.len(),
            trim_start_ws(s@) == trim_start_ws(s@.skip(a as int)),
        decreases s@.len() - a,
    {
        assert(s@.skip(a as int).drop_first() == s@.skip(a + 1));
        a = a + 1;
    }
    let ghost front = s@.skip(a as int);
    let mut b: usize = s.len();
    while b > a && is_white_space(s[b - 1])
        invariant
            a <= b <= s@.len(),
            front == s@.skip(a as int),
            trim_start_ws(s@) == front,
            trim_end_ws(front) == trim_end_ws(s@.subrange(a as int, b as int)),
        decreases b,
    {
        assert(s@.subrange(a as int, b as int).drop_last() == s@.subrange(a as int, b - 1));
        b = b - 1;
    }
    assert(s@.subrange(a as int, s@.len() as int) == s@.skip(a as int));
    let mut r: Vec<char> = Vec::new();
    let mut i: usize = a;
    while i < b
        invariant
            a <= i <= b <= s@.len(),
            r@ == s@.subrange(a as int, i as int),
        decreases b - i,
    {
        r.push(s[i]);
        i = i + 1;
    }
    r
}

/// `s` with trailing `/` removed.
fn trim_slashes(s: &[char]) -> (r: Vec<char>)
    ensures
        r@ == trim_end_slashes(s@),
{
    let mut b: usize = s.len();
    assert(s@.take(s@.len() as int) == s@);
    while b > 0 && s[b - 1] == '/'
        invariant
            b <= s@.len(),
            trim_end_slashes(s@) == trim_end_slashes(s@.take(b as int)),
        decreases b,
    {
        assert(s@.take(b as int).drop_last() == s@.take(b - 1));
        b = b - 1;
    }
    let mut r: Vec<char> = Vec::new();
    let mut i: usize = 0;
    while i < b
        invariant
            i <= b <= s@.len(),
            r@ == s@.take(i as int),
        decreases b - i,
    {
        r.push(s[i]);
        assert(s@.take(i + 1) == s@.take(i as int).push(s@[i as int]));
        i = i + 1;
    }
    r
}

/// The path of a URI is the text after its authority, character for
/// character: `ezagent://` then an authority without `/`, then a path that
/// starts with `/` and ends with neither white space nor `/`, parses to that
/// very authority and path (no case mapping of the path).
pub proof fn lemma_uri_path_verbatim(authority: Seq<char>, path: Seq<char>)
    requires
        authority.len() > 0,
        !authority.contains('/'),
        path.len() > 0,
        path[0] == '/',
        !white_space(path.last()),
        path.last() != '/',
    ensures
        uri_parts(scheme() + authority + path) == Ok::<(Seq<char>, Seq<char>), Seq<char>>((authority, path)),
{
    reveal_strlit("ezagent://");
    let uri = scheme() + authority + path;
    assert(uri[0] == 'e');
    assert(uri.last() == path.last());
    assert(trim_start_ws(uri) == uri);
    assert(trim_end_ws(uri) == uri);
    assert(trim_end_slashes(uri) == uri);
    assert(uri.subrange(0, scheme().len() as int) =~= scheme());
    let rest = uri.skip(scheme().len() as int);
    assert(rest =~= authority + path);
    let n = authority.len() as int;
    assert(rest[n] == '/');
    assert forall|j: int| 0 <= j < n implies rest[j] != '/' by {
        assert(rest[j] == authority[j]);
        assert(authority.contains(authority[j]));
    }
    let f = choose|i: int| 0 <= i < rest.len() && rest[i] == '/' && forall|j: int| 0 <= j < i ==> rest[j] != '/';
    assert(exists|i: int| 0 <= i < rest.len() && rest[i] == '/' && forall|j: int| 0 <= j < i ==> rest[j] != '/');
    assert(0 <= f < rest.len() && rest[f] == '/' && forall|j: int| 0 <= j < f ==> rest[j] != '/');
    if f < n {
        assert(rest[f] != '/');
    } else if f > n {
        assert(rest[n] != '/');
    }
    assert(first_index_of(rest, '/') == Some(n));
    assert(rest.take(n) =~= authority);
    assert(rest.skip(n) =~= path);
}

/// Parses an `ezagent://` URI: surrounding white space and trailing `/`
/// are ignored and the authority is lowercased; a wrong scheme or a missing
/// authority is an error with its reason.
pub fn parse_ezagent_uri(uri: &str) -> (r: Result<ParsedUri, String>)
    ensures
        match uri_parts(uri@) {
            Err(e) => r matches Err(m) && m@ == e,
            Ok((authority, path)) => r matches Ok(p) && p.authority@ == unicode_lowercase(authority) && p.path@ == path,
        },
{
    let cs = chars_of(uri);
    let w = trim_ws(cs.as_slice());
    let t = trim_slashes(w.as_slice());
    let prefix = chars_of("ezagent://");
    proof { reveal_strlit("ezagent://"); }
    assert(prefix@ == scheme());
    if !crate::text::chars_start_with(t.as_slice(), prefix.as_slice()) {
        return Err(copy_str("scheme must be 'ezagent://'"));
    }
    let rest = crate::uri_registry::slice_from(t.as_slice(), 10);
    let (authority, path) = match find_char(rest.as_slice(), '/') {
        Some(i) => {
            assert(rest@.subrange(0, i as int) == rest@.take(i as int));
            assert(rest@.subrange(i as int, rest@.len() as int) == rest@.skip(i as int));
            (string_from_range(rest.as_slice(), 0, i), string_from_range(rest.as_slice(), i, rest.len()))
        },
        None => {
            assert(rest@.subrange(0, rest@.len() as int) == rest@);
            (string_from_range(rest.as_slice(), 0, rest.len()), String::new())
        },
    };
    if authority.unicode_len() == 0 {
        return Err(copy_str("missing authority"));
    }
    let path = if path.unicode_len() == 0 { copy_str("/") } else { path };
    Ok(ParsedUri { authority: to_lowercase(&authority), path })
}

/// What a URI path names.
#[derive(Debug, Clone)]
pub enum Resource {
    Room { room_id: String },
    Message { room_id: String, ref_id: String },
}

/// The non-empty segments of `p`, in order.
pub open spec fn nonempty(segs: Seq<Seq<char>>) -> Seq<Seq<char>>
    decreases segs.len(),
{
    if segs.len() == 0 {
        Seq::empty()
    } else if segs.last().len() == 0 {
        nonempty(segs.drop_last())
    } else {
        nonempty(segs.drop_last()).push(segs.last())
    }
}

/// How a path resolves: without trailing `/`, its non-empty segments must
/// be `r/{room}` or `r/{room}/m/{ref}`; anything else is "unrecognized
/// path: " and the path.
pub open spec fn path_resource(path: Seq<char>) -> Result<(Seq<char>, Option<Seq<char>>), Seq<char>> {
    let p = trim_end_slashes(path);
    let segs = nonempty(split_slash(p));
    if segs.len() == 2 && segs[0] == "r"@ {
        Ok((segs[1], None))
    } else if segs.len() == 4 && segs[0] == "r"@ && segs[2] == "m"@ {
        Ok((segs[1], Some(segs[3])))
    } else {
        Err("unrecognized path: "@ + p)
    }
}

/// Resolves a URI path to the room or message it names.
pub fn resolve_path(path: &str) -> (r: Result<Resource, String>)
    ensures
        match path_resource(path@) {
            Err(e) => r matches Err(m) && m@ == e,
            Ok((room, None)) => r matches Ok(Resource::Room { room_id }) && room_id@ == room,
            Ok((room, Some(reference))) => r matches Ok(Resource::Message { room_id, ref_id })
                && room_id@ == room && ref_id@ == reference,
        },
{
    let cs = chars_of(path);
    let p = trim_slashes(cs.as_slice());
    let parts = split_chars(p.as_slice());
    let mut segs: Vec<String> = Vec::new();
    let mut i: usize = 0;
    while i < parts.len()
        invariant
            i <= parts@.len(),
            segs.deep_view() == nonempty(parts.deep_view().take(i as int)),
        decreases parts@.len() - i,
    {
        let ghost t = parts.deep_view().take(i + 1);
        assert(t.drop_last() == parts.deep_view().take(i as int));
        assert(t.last() == parts@[i as int]@);
        if parts[i].unicode_len() > 0 {
            let ghost before = segs.deep_view();
            segs.push(copy_str(&parts[i]));
            assert(segs.deep_view() =~= before.push(parts@[i as int]@));
        }
        i = i + 1;
    }
    assert(parts.deep_view().take(parts@.len() as int) == parts.deep_view());
    let ghost sv = segs.deep_view();
    if segs.len() == 2 && str_eq(&segs[0], "r") {
        assert(sv[1] == segs@[1]@);
        return Ok(Resource::Room { room_id: copy_str(&segs[1]) });
    }
    if segs.len() == 4 && str_eq(&segs[0], "r") && str_eq(&segs[2], "m") {
        assert(sv[1] == segs@[1]@ && sv[3] == segs@[3]@);
        return Ok(Resource::Message { room_id: copy_str(&segs[1]), ref_id: copy_str(&segs[3]) });
    }
    let ps = crate::text::string_from_chars(p.as_slice());
    Err(concat2("unrecognized path: ", &ps))
}

} // verus!
