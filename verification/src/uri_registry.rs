//! URI path registry: maps extension URI patterns (such as
//! `/r/{room_id}/m/{ref_id}/reactions`) to extension ids, refuses patterns
//! of different extensions that would match the same paths, and resolves
//! concrete paths to the extension that owns them.
use vstd::prelude::*;
use crate::error::EngineError;
use crate::text::{chars_of, chars_eq, chars_start_with, copy_str, find_char, first_index_of,
    is_prefix, str_eq, string_from_range};

verus! {

/// `t` split at every `/`: `"a//b"` gives `["a", "", "b"]`.
pub open spec fn split_slash(t: Seq<char>) -> Seq<Seq<char>>
    decreases t.len(),
{
    match first_index_of(t, '/') {
        Some(i) => if 0 <= i < t.len() {
            seq![t.take(i)] + split_slash(t.skip(i + 1))
        } else {
            seq![t]
        },
        None => seq![t],
    }
}

/// The segments of a path: without one leading `/`, split at each `/`;
/// no segment at all for an empty path.
#[verifier::opaque]
pub open spec fn path_segments(p: Seq<char>) -> Seq<Seq<char>> {
    let t = if p.len() > 0 && p[0] == '/' { p.drop_first() } else { p };
    if t.len() == 0 { Seq::empty() } else { split_slash(t) }
}

/// A `{` occurs in `seg`, and a `}` at or after the first `{`.
pub open spec fn has_placeholder(seg: Seq<char>) -> bool {
    match first_index_of(seg, '{') {
        Some(i) => exists|j: int| i <= j < seg.len() && seg[j] == '}',
        None => false,
    }
}

/// The literal text before the first `{` of `seg`, if there is a `{`.
pub open spec fn literal_prefix(seg: Seq<char>) -> Option<Seq<char>> {
    match first_index_of(seg, '{') {
        Some(i) => Some(seg.take(i)),
        None => None,
    }
}

/// The literal prefix of `seg`, or nothing.
pub open spec fn prefix_or_empty(seg: Seq<char>) -> Seq<char> {
    match literal_prefix(seg) {
        Some(p) => p,
        None => Seq::empty(),
    }
}

/// Two pattern segments can match a common value: two placeholders whose
/// literal prefixes agree (one begins the other), a placeholder whose prefix
/// begins the other (literal) segment, or two equal literals.
pub open spec fn segs_overlap(a: Seq<char>, b: Seq<char>) -> bool {
    if has_placeholder(a) && has_placeholder(b) {
        is_prefix(prefix_or_empty(a), prefix_or_empty(b)) || is_prefix(prefix_or_empty(b), prefix_or_empty(a))
    } else if has_placeholder(a) {
        is_prefix(prefix_or_empty(a), b)
    } else if has_placeholder(b) {
        is_prefix(prefix_or_empty(b), a)
    } else {
        a == b
    }
}

/// Two patterns conflict: as many segments, each pair overlapping.
#[verifier::opaque]
pub open spec fn conflict(a: Seq<char>, b: Seq<char>) -> bool {
    let sa = path_segments(a);
    let sb = path_segments(b);
    sa.len() == sb.len() && forall|i: int| 0 <= i < sa.len() ==> segs_overlap(#[trigger] sa[i], sb[i])
}

/// A concrete segment matches a pattern segment: it begins with the literal
/// prefix of a placeholder segment, or equals a literal one.
pub open spec fn seg_matches(p: Seq<char>, pt: Seq<char>) -> bool {
    if has_placeholder(pt) {
        is_prefix(prefix_or_empty(pt), p)
    } else {
        p == pt
    }
}

/// A concrete path matches a pattern: as many segments, each matching.
#[verifier::opaque]
pub open spec fn matches_pattern(path: Seq<char>, pattern: Seq<char>) -> bool {
    let sp = path_segments(path);
    let st = path_segments(pattern);
    sp.len() == st.len() && forall|i: int| 0 <= i < sp.len() ==> seg_matches(#[trigger] sp[i], st[i])
}

/// `t` split at every `/`.
pub fn split_chars(t: &[char]) -> (r: Vec<String>)
    ensures
        r.deep_view() == split_slash(t@),
    decreases t@.len(),
{
    match find_char(t, '/') {
        Some(i) => {
            let n = t.len();
            assert(i < n);
            let first = string_from_range(t, 0, i);
            let rest_chars = slice_from(t, i + 1);
            let rest = split_chars(rest_chars.as_slice());
            let mut r: Vec<String> = Vec::new();
            r.push(first);
            let mut k: usize = 0;
            while k < rest.len()
                invariant
                    k <= rest@.len(),
                    r@.len() == k + 1,
                    r@[0]@ == t@.take(i as int),
                    forall|m: int| 0 <= m < k ==> r@[m + 1]@ == rest@[m]@,
                decreases rest@.len() - k,
            {
                r.push(copy_str(&rest[k]));
                k = k + 1;
            }
            proof {
                assert(t@.subrange(0, i as int) == t@.take(i as int));
                assert(rest_chars@ == t@.skip(i + 1));
                assert(r.deep_view() =~= seq![t@.take(i as int)] + rest.deep_view());
            }
            r
        },
        None => {
            let mut r: Vec<String> = Vec::new();
            r.push(string_from_range(t, 0, t.len()));
            assert(t@.subrange(0, t@.len() as int) == t@);
            assert(r.deep_view() =~= seq![t@]);
            r
        },
    }
}

/// The characters `t[from..]`.
pub fn slice_from(t: &[char], from: usize) -> (r: Vec<char>)
    requires
        from <= t@.len(),
    ensures
        r@ == t@.skip(from as int),
{
    let mut r: Vec<char> = Vec::new();
    let mut i: usize = from;
    while i < t.len()
        invariant
            from <= i <= t@.len(),
            r@ == t@.subrange(from as int, i as int),
        decreases t@.len() - i,
    {
        r.push(t[i]);
        i = i + 1;
    }
    r
}

/// The segments of `path`: the leading `/` dropped, then split at each `/`.
pub fn segments(path: &str) -> (r: Vec<String>)
    ensures
        r.deep_view() == path_segments(path@),
{
    reveal(path_segments);
    let cs = chars_of(path);
    let t = if cs.len() > 0 && cs[0] == '/' { slice_from(cs.as_slice(), 1) } else { cs };
    assert(path@.len() > 0 && path@[0] == '/' ==> path@.skip(1) == path@.drop_first());
    if t.len() == 0 {
        return Vec::new();
    }
    split_chars(t.as_slice())
}

/// Whether a segment holds a placeholder: a `{` and, at or after the first
/// `{`, a `}`.
pub fn contains_placeholder(seg: &str) -> (r: bool)
    ensures
        r == has_placeholder(seg@),
{
    let cs = chars_of(seg);
    match find_char(cs.as_slice(), '{') {
        Some(start) => {
            let mut j: usize = start;
            while j < cs.len()
                invariant
                    start <= j <= cs@.len(),
                    cs@ == seg@,
                    first_index_of(seg@, '{') == Some(start as int),
                    forall|k: int| start <= k < j ==> cs@[k] != '}',
                decreases cs@.len() - j,
            {
                if cs[j] == '}' {
                    assert(cs@[j as int] == '}');
                    return true;
                }
                j = j + 1;
            }
            false
        },
        None => false,
    }
}

/// The literal text before the first `{` of a segment, if it has one.
pub fn placeholder_prefix(seg: &str) -> (r: Option<String>)
    ensures
        match r {
            Some(p) => literal_prefix(seg@) == Some(p@),
            None => literal_prefix(seg@) is None,
        },
{
    let cs = chars_of(seg);
    match find_char(cs.as_slice(), '{') {
        Some(i) => {
            assert(cs@.subrange(0, i as int) == cs@.take(i as int));
            Some(string_from_range(cs.as_slice(), 0, i))
        },
        None => None,
    }
}

/// The literal prefix of a segment, or the empty string.
fn prefix_of(seg: &str) -> (r: String)
    ensures
        r@ == prefix_or_empty(seg@),
{
    match placeholder_prefix(seg) {
        Some(p) => p,
        None => String::new(),
    }
}

/// Whether `s` begins with `p`.
fn starts_with(s: &str, p: &str) -> (r: bool)
    ensures
        r == is_prefix(p@, s@),
{
    let a = chars_of(s);
    let b = chars_of(p);
    chars_start_with(a.as_slice(), b.as_slice())
}

/// Whether two pattern segments can match a common value.
pub fn segments_overlap(a: &str, b: &str) -> (r: bool)
    ensures
        r == segs_overlap(a@, b@),
{
    let a_has = contains_placeholder(a);
    let b_has = contains_placeholder(b);
    if a_has && b_has {
        let pa = prefix_of(a);
        let pb = prefix_of(b);
        starts_with(&pb, &pa) || starts_with(&pa, &pb)
    } else if a_has {
        let pa = prefix_of(a);
        starts_with(b, &pa)
    } else if b_has {
        let pb = prefix_of(b);
        starts_with(a, &pb)
    } else {
        str_eq(a, b)
    }
}

/// Whether two patterns would match the same paths.
pub fn patterns_conflict(a: &str, b: &str) -> (r: bool)
    ensures
        r == conflict(a@, b@),
{
    reveal(conflict);
    let sa = segments(a);
    let sb = segments(b);
    let ghost pa = path_segments(a@);
    let ghost pb = path_segments(b@);
    if sa.len() != sb.len() {
        return false;
    }
    let mut i: usize = 0;
    while i < sa.len()
        invariant
            sa@.len() == sb@.len(),
            sa.deep_view() == pa,
            sb.deep_view() == pb,
            pa == path_segments(a@),
            pb == path_segments(b@),
            i <= sa@.len(),
            forall|k: int| 0 <= k < i ==> segs_overlap(#[trigger] pa[k], pb[k]),
        decreases sa@.len() - i,
    {
        assert(pa[i as int] == sa@[i as int]@);
        assert(pb[i as int] == sb@[i as int]@);
        if !segments_overlap(&sa[i], &sb[i]) {
            assert(!segs_overlap(pa[i as int], pb[i as int]));
            proof { reveal(conflict); }
            return false;
        }
        i = i + 1;
    }
    true
}

/// Whether a concrete path matches a pattern.
pub fn path_matches_pattern(path: &str, pattern: &str) -> (r: bool)
    ensures
        r == matches_pattern(path@, pattern@),
{
    reveal(matches_pattern);
    let sp = segments(path);
    let st = segments(pattern);
    let ghost pp = path_segments(path@);
    let ghost pt = path_segments(pattern@);
    if sp.len() != st.len() {
        return false;
    }
    let mut i: usize = 0;
    while i < sp.len()
        invariant
            sp@.len() == st@.len(),
            sp.deep_view() == pp,
            st.deep_view() == pt,
            pp == path_segments(path@),
            pt == path_segments(pattern@),
            i <= sp@.len(),
            forall|k: int| 0 <= k < i ==> seg_matches(#[trigger] pp[k], pt[k]),
        decreases sp@.len() - i,
    {
        assert(pp[i as int] == sp@[i as int]@);
        assert(pt[i as int] == st@[i as int]@);
        let ok = if contains_placeholder(&st[i]) {
            let pre = prefix_of(&st[i]);
            starts_with(&sp[i], &pre)
        } else {
            str_eq(&sp[i], &st[i])
        };
        if !ok {
            assert(!seg_matches(pp[i as int], pt[i as int]));
            proof { reveal(matches_pattern); }
            return false;
        }
        i = i + 1;
    }
    true
}

/// Registered patterns, each with the extension that owns it.
pub struct UriPathRegistry {
    entries: Vec<(String, String)>,
}

/// Index of the first entry of another extension than `ext` whose pattern
/// conflicts with `pattern`.
pub open spec fn first_conflict(entries: Seq<(Seq<char>, Seq<char>)>, pattern: Seq<char>, ext: Seq<char>) -> Option<int> {
    if exists|i: int| 0 <= i < entries.len() && entries[i].1 != ext && conflict(pattern, entries[i].0) {
        Some(choose|i: int| 0 <= i < entries.len() && entries[i].1 != ext && conflict(pattern, entries[i].0)
            && forall|j: int| 0 <= j < i ==> !(entries[j].1 != ext && conflict(pattern, entries[j].0)))
    } else {
        None
    }
}

/// Index of the first entry whose pattern matches `path`.
pub open spec fn first_match(entries: Seq<(Seq<char>, Seq<char>)>, path: Seq<char>) -> Option<int> {
    if exists|i: int| 0 <= i < entries.len() && matches_pattern(path, entries[i].0) {
        Some(choose|i: int| 0 <= i < entries.len() && matches_pattern(path, entries[i].0)
            && forall|j: int| 0 <= j < i ==> !matches_pattern(path, entries[j].0))
    } else {
        None
    }
}

/// No entry conflicts with an earlier entry of another extension.
pub open spec fn conflict_free(entries: Seq<(Seq<char>, Seq<char>)>) -> bool {
    forall|i: int, j: int| 0 <= i < j < entries.len() && entries[i].1 != entries[j].1
        ==> !conflict(#[trigger] entries[j].0, #[trigger] entries[i].0)
}

impl UriPathRegistry {
    #[verifier::type_invariant]
    spec fn inv(self) -> bool {
        conflict_free(self.entries.deep_view())
    }

    /// The registered (pattern, extension id) pairs, in registration order.
    pub closed spec fn view_entries(&self) -> Seq<(Seq<char>, Seq<char>)> {
        self.entries.deep_view()
    }

    /// An empty registry.
    pub fn new() -> (r: UriPathRegistry)
        ensures
            r.view_entries().len() == 0,
            conflict_free(r.view_entries()),
    {
        UriPathRegistry { entries: Vec::new() }
    }

    /// Registers `pattern` for `extension_id`. It is refused, naming the
    /// first conflicting entry's extension, when it conflicts with a pattern
    /// of another extension; the same extension may register again.
    pub fn register(&mut self, pattern: &str, extension_id: &str) -> (r: Result<(), EngineError>)
        ensures
            match first_conflict(old(self).view_entries(), pattern@, extension_id@) {
                Some(i) => {
                    &&& r matches Err(EngineError::UriPathConflict { pattern: p, ext_a, ext_b })
                        && p@ == pattern@ && ext_a@ == old(self).view_entries()[i].1 && ext_b@ == extension_id@
                    &&& final(self).view_entries() == old(self).view_entries()
                },
                None => {
                    &&& r is Ok
                    &&& final(self).view_entries() == old(self).view_entries().push((pattern@, extension_id@))
                },
            },
            conflict_free(final(self).view_entries()),
    {
        proof { use_type_invariant(&*self); }
        let ghost ev = self.entries.deep_view();
        let mut i: usize = 0;
        while i < self.entries.len()
            invariant
                ev == self.entries.deep_view(),
                i <= ev.len(),
                forall|j: int| 0 <= j < i ==> !(ev[j].1 != extension_id@ && conflict(pattern@, ev[j].0)),
            decreases ev.len() - i,
        {
            let e = &self.entries[i];
            assert(ev[i as int] == (e.0@, e.1@));
            if !str_eq(&e.1, extension_id) && patterns_conflict(pattern, &e.0) {
                proof {
                    let c = choose|c: int| 0 <= c < ev.len() && ev[c].1 != extension_id@ && conflict(pattern@, ev[c].0)
                        && forall|j: int| 0 <= j < c ==> !(ev[j].1 != extension_id@ && conflict(pattern@, ev[j].0));
                    if c < i {
                    } else if c > i {
                        assert(!(ev[i as int].1 != extension_id@ && conflict(pattern@, ev[i as int].0)));
                    }
                }
                proof { use_type_invariant(&*self); }
                return Err(EngineError::UriPathConflict {
                    pattern: copy_str(pattern),
                    ext_a: copy_str(&e.1),
                    ext_b: copy_str(extension_id),
                });
            }
            i = i + 1;
        }
        let item = (copy_str(pattern), copy_str(extension_id));
        let mut v: Vec<(String, String)> = Vec::new();
        std::mem::swap(&mut v, &mut self.entries);
        v.push(item);
        proof {
            assert(v.deep_view() =~= ev.push((pattern@, extension_id@)));
            let nv = v.deep_view();
            assert forall|a: int, b: int| 0 <= a < b < nv.len() && nv[a].1 != nv[b].1
                implies !conflict(#[trigger] nv[b].0, #[trigger] nv[a].0) by {
                if b == ev.len() {
                    assert(!(ev[a].1 != extension_id@ && conflict(pattern@, ev[a].0)));
                }
            }
        }
        self.entries = v;
        proof { use_type_invariant(&*self); }
        Ok(())
    }

    /// The extension owning the first registered pattern that `path`
    /// matches, if any.
    pub fn resolve(&self, path: &str) -> (r: Option<&str>)
        ensures
            match first_match(self.view_entries(), path@) {
                Some(i) => r matches Some(e) && e@ == self.view_entries()[i].1,
                None => r is None,
            },
    {
        let ghost ev = self.entries.deep_view();
        let mut i: usize = 0;
        while i < self.entries.len()
            invariant
                ev == self.entries.deep_view(),
                i <= ev.len(),
                forall|j: int| 0 <= j < i ==> !matches_pattern(path@, ev[j].0),
            decreases ev.len() - i,
        {
            assert(ev[i as int] == (self.entries@[i as int].0@, self.entries@[i as int].1@));
            if path_matches_pattern(path, &self.entries[i].0) {
                proof {
                    let c = choose|c: int| 0 <= c < ev.len() && matches_pattern(path@, ev[c].0)
                        && forall|j: int| 0 <= j < c ==> !matches_pattern(path@, ev[j].0);
                    if c < i {
                    } else if c > i {
                        assert(!matches_pattern(path@, ev[i as int].0));
                    }
                }
                return Some(self.entries[i].1.as_str());
            }
            i = i + 1;
        }
        None
    }

    /// The registered (pattern, extension id) pairs, in registration order.
    pub fn entries(&self) -> (r: Vec<(&str, &str)>)
        ensures
            r@.len() == self.view_entries().len(),
            forall|i: int| 0 <= i < r@.len() ==> r@[i].0@ == self.view_entries()[i].0 && r@[i].1@ == self.view_entries()[i].1,
    {
        let mut r: Vec<(&str, &str)> = Vec::new();
        let mut i: usize = 0;
        while i < self.entries.len()
            invariant
                i <= self.entries@.len(),
                r@.len() == i,
                forall|k: int| 0 <= k < i ==> r@[k].0@ == self.entries@[k].0@ && r@[k].1@ == self.entries@[k].1@,
            decreases self.entries@.len() - i,
        {
            r.push((self.entries[i].0.as_str(), self.entries[i].1.as_str()));
            i = i + 1;
        }
        r
    }
}

/// Two prefixes of one sequence: the shorter begins the longer.
proof fn lemma_prefixes_agree(x: Seq<char>, y: Seq<char>, t: Seq<char>)
    requires
        is_prefix(x, t),
        is_prefix(y, t),
    ensures
        is_prefix(x, y) || is_prefix(y, x),
{
    if x.len() <= y.len() {
        assert(y.subrange(0, x.len() as int) =~= t.subrange(0, x.len() as int));
    } else {
        assert(x.subrange(0, y.len() as int) =~= t.subrange(0, y.len() as int));
    }
}

/// Two patterns that match the same path conflict.
pub proof fn lemma_common_match_conflicts(path: Seq<char>, a: Seq<char>, b: Seq<char>)
    requires
        matches_pattern(path, a),
        matches_pattern(path, b),
    ensures
        conflict(a, b),
{
    reveal(matches_pattern);
    reveal(conflict);
    let sp = path_segments(path);
    let sa = path_segments(a);
    let sb = path_segments(b);
    assert forall|i: int| 0 <= i < sa.len() implies segs_overlap(#[trigger] sa[i], sb[i]) by {
        assert(seg_matches(sp[i], sa[i]));
        assert(seg_matches(sp[i], sb[i]));
        if has_placeholder(sa[i]) && has_placeholder(sb[i]) {
            lemma_prefixes_agree(prefix_or_empty(sa[i]), prefix_or_empty(sb[i]), sp[i]);
        }
    }
}

/// In a registry without conflicts, patterns that match the same path
/// belong to the same extension: a path resolves to one extension whichever
/// matching entry is found.
pub proof fn lemma_resolution_unambiguous(entries: Seq<(Seq<char>, Seq<char>)>, path: Seq<char>, i: int, j: int)
    requires
        conflict_free(entries),
        0 <= i < entries.len(),
        0 <= j < entries.len(),
        matches_pattern(path, entries[i].0),
        matches_pattern(path, entries[j].0),
    ensures
        entries[i].1 == entries[j].1,
{
    if i < j {
        lemma_common_match_conflicts(path, entries[j].0, entries[i].0);
    } else if j < i {
        lemma_common_match_conflicts(path, entries[i].0, entries[j].0);
    }
}

} // verus!
