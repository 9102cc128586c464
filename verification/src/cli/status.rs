//! What the `status` command shows of the configuration.
use vstd::prelude::*;
use crate::text::{chars_of, is_prefix, string_from_range};

verus! {

/// The position of the last `c` in `s`, if any.
pub open spec fn last_index_of(s: Seq<char>, c: char) -> Option<int> {
    if exists|i: int| 0 <= i < s.len() && s[i] == c {
        Some(choose|i: int| 0 <= i < s.len() && s[i] == c && forall|j: int| i < j < s.len() ==> s[j] != c)
    } else {
        None
    }
}

/// The host of a relay endpoint: without a leading `tls/` and without the
/// text from the last `:` on.
pub open spec fn endpoint_host(endpoint: Seq<char>) -> Seq<char> {
    let s = if is_prefix("tls/"@, endpoint) { endpoint.skip(4) } else { endpoint };
    match last_index_of(s, ':') {
        Some(p) => s.take(p),
        None => s,
    }
}

/// The host of a relay endpoint such as `tls/relay.example.com:7448`.
pub fn relay_host(endpoint: &str) -> (h: String)
    ensures
        h@ == endpoint_host(endpoint@),
{
    let cs = chars_of(endpoint);
    proof { reveal_strlit("tls/"); }
    let tls = cs.len() >= 4 && cs[0] == 't' && cs[1] == 'l' && cs[2] == 's' && cs[3] == '/';
    assert(tls == is_prefix("tls/"@, endpoint@)) by {
        if is_prefix("tls/"@, endpoint@) {
            assert(endpoint@.subrange(0, 4) == "tls/"@);
            assert(endpoint@[0] == endpoint@.subrange(0, 4)[0]);
            assert(endpoint@[1] == endpoint@.subrange(0, 4)[1]);
            assert(endpoint@[2] == endpoint@.subrange(0, 4)[2]);
            assert(endpoint@[3] == endpoint@.subrange(0, 4)[3]);
        }
        if tls {
            assert(endpoint@.subrange(0, 4) =~= "tls/"@);
        }
    }
    let start: usize = if tls { 4 } else { 0 };
    let ghost s = if tls { endpoint@.skip(4) } else { endpoint@ };
    assert(cs@.subrange(start as int, cs@.len() as int) =~= s);
    let mut k: usize = cs.len();
    while k > start
        invariant
            start <= k <= cs@.len(),
            cs@ == endpoint@,
            s == cs@.subrange(start as int, cs@.len() as int),
            s == (if is_prefix("tls/"@, endpoint@) { endpoint@.skip(4) } else { endpoint@ }),
            forall|j: int| k <= j < cs@.len() ==> cs@[j] != ':',
        decreases k - start,
    {
        if cs[k - 1] == ':' {
            proof {
                let p = (k - 1 - start) as int;
                assert(s[p] == ':');
                let c = choose|i: int| 0 <= i < s.len() && s[i] == ':' && forall|j: int| i < j < s.len() ==> s[j] != ':';
                if c < p {
                    assert(s[p] != ':');
                } else if c > p {
                    assert(s[c] == cs@[c + start]);
                    assert(cs@[c + start] != ':');
                }
                assert(c == p);
                assert(last_index_of(s, ':') == Some(p));
                assert(endpoint_host(endpoint@) == s.take(p));
                assert(cs@.subrange(start as int, (k - 1) as int) =~= s.take(p));
            }
            return string_from_range(cs.as_slice(), start, k - 1);
        }
        k = k - 1;
    }
    proof {
        assert forall|i: int| 0 <= i < s.len() implies s[i] != ':' by {
            assert(s[i] == cs@[i + start]);
        }
    }
    string_from_range(cs.as_slice(), start, cs.len())
}

} // verus!
