//! Which timeline refs the `messages` command lists.
use vstd::prelude::*;
use crate::text::str_eq;

verus! {

/// Where the listed refs end: at the first ref equal to `before`, or after
/// the last ref without `before` or when no ref equals it.
pub open spec fn window_end(refs: Seq<Seq<char>>, before: Option<Seq<char>>) -> int {
    match before {
        Some(b) => if exists|i: int| 0 <= i < refs.len() && refs[i] == b {
            choose|i: int| 0 <= i < refs.len() && refs[i] == b && forall|j: int| 0 <= j < i ==> refs[j] != b
        } else {
            refs.len() as int
        },
        None => refs.len() as int,
    }
}

/// The refs listed: those before `window_end`, and of those only the last
/// `limit` when a limit is given.
pub open spec fn ref_window(refs: Seq<Seq<char>>, limit: Option<nat>, before: Option<Seq<char>>) -> Seq<Seq<char>> {
    let end = window_end(refs, before);
    let start: int = match limit {
        Some(l) => if end > l { end - l } else { 0 },
        None => 0,
    };
    refs.subrange(start, end)
}

/// The position of the first ref equal to `b`, or the number of refs.
fn position_of(refs: &Vec<String>, b: &str) -> (r: usize)
    ensures
        r == window_end(refs@.map_values(|s: String| s@), Some(b@)),
        r <= refs@.len(),
{
    let ghost v = refs@.map_values(|s: String| s@);
    let mut i: usize = 0;
    while i < refs.len()
        invariant
            i <= refs@.len(),
            v == refs@.map_values(|s: String| s@),
            forall|j: int| 0 <= j < i ==> v[j] != b@,
        decreases refs@.len() - i,
    {
        if str_eq(&refs[i], b) {
            proof {
                assert(v[i as int] == b@);
                let c = choose|c: int| 0 <= c < v.len() && v[c] == b@ && forall|j: int| 0 <= j < c ==> v[j] != b@;
                if c < i {
                } else if c > i {
                    assert(v[i as int] != b@);
                }
            }
            return i;
        }
        i = i + 1;
    }
    refs.len()
}

/// The refs the `messages` command lists; see `ref_window`.
pub fn select_refs<'a>(refs: &'a Vec<String>, limit: Option<usize>, before: Option<&str>) -> (r: Vec<&'a String>)
    ensures
        ({
            let w = ref_window(refs@.map_values(|s: String| s@),
                match limit { Some(l) => Some(l as nat), None => None }, match before { Some(b) => Some(b@), None => None });
            &&& r@.len() == w.len()
            &&& forall|i: int| 0 <= i < r@.len() ==> (#[trigger] r@[i])@ == w[i]
        }),
{
    let ghost v = refs@.map_values(|s: String| s@);
    let end: usize = match before {
        Some(b) => position_of(refs, b),
        None => refs.len(),
    };
    let start: usize = match limit {
        Some(l) => if end > l { end - l } else { 0 },
        None => 0,
    };
    let mut out: Vec<&String> = Vec::new();
    let mut k: usize = start;
    while k < end
        invariant
            start <= k <= end <= refs@.len(),
            v == refs@.map_values(|s: String| s@),
            out@.len() == k - start,
            forall|j: int| 0 <= j < out@.len() ==> (#[trigger] out@[j])@ == v[start + j],
        decreases end - k,
    {
        out.push(&refs[k]);
        k = k + 1;
    }
    out
}

} // verus!
