//! Dependency resolution for datatypes: a deterministic topological load
//! order in which every datatype comes after all of its dependencies, ties
//! broken alphabetically by id (Kahn's algorithm with a sorted queue).
use vstd::prelude::*;
use crate::error::EngineError;
use crate::text::{lex_le, lex_lt, lemma_lex_asymmetric, lemma_lex_irreflexive, lemma_lex_total, lemma_lex_transitive, str_eq, str_lt};

verus! {

/// Position of the first entry of `deps` whose key is `id`.
#[verifier::opaque]
pub open spec fn dep_entry_index(deps: Seq<(Seq<char>, Seq<Seq<char>>)>, id: Seq<char>) -> Option<int> {
    if exists|j: int| 0 <= j < deps.len() && deps[j].0 == id {
        Some(choose|j: int| 0 <= j < deps.len() && deps[j].0 == id
            && forall|k: int| 0 <= k < j ==> deps[k].0 != id)
    } else {
        None
    }
}

/// The declared dependencies of `id`: the list of the first entry keyed by
/// `id`, or nothing when no entry names it.
pub open spec fn deps_of(deps: Seq<(Seq<char>, Seq<Seq<char>>)>, id: Seq<char>) -> Seq<Seq<char>> {
    match dep_entry_index(deps, id) {
        Some(j) => deps[j].1,
        None => Seq::empty(),
    }
}

/// `x` may be placed after `placed`: it is one of `ids`, not yet placed, and
/// every dependency it declares is already placed.
pub open spec fn is_ready(
    ids: Seq<Seq<char>>,
    deps: Seq<(Seq<char>, Seq<Seq<char>>)>,
    placed: Seq<Seq<char>>,
    x: Seq<char>,
) -> bool {
    &&& ids.contains(x)
    &&& !placed.contains(x)
    &&& forall|k: int| 0 <= k < deps_of(deps, x).len() ==> placed.contains(#[trigger] deps_of(deps, x)[k])
}

/// `order` lists every id exactly once and each id after all of its
/// dependencies.
pub open spec fn is_topological_order(
    ids: Seq<Seq<char>>,
    deps: Seq<(Seq<char>, Seq<Seq<char>>)>,
    order: Seq<Seq<char>>,
) -> bool {
    &&& order.len() == ids.len()
    &&& order.no_duplicates()
    &&& forall|x: Seq<char>| order.contains(x) <==> ids.contains(x)
    &&& forall|i: int, k: int| 0 <= i < order.len() && 0 <= k < deps_of(deps, order[i]).len()
        ==> order.take(i).contains(#[trigger] deps_of(deps, order[i])[k])
}

/// Each element of `order` is, among the ids ready at its position, the
/// alphabetically smallest: the tie-breaking rule of the load order.
pub open spec fn is_greedy_order(
    ids: Seq<Seq<char>>,
    deps: Seq<(Seq<char>, Seq<Seq<char>>)>,
    order: Seq<Seq<char>>,
) -> bool {
    forall|i: int| 0 <= i < order.len() ==> {
        &&& is_ready(ids, deps, order.take(i), #[trigger] order[i])
        &&& forall|x: Seq<char>| is_ready(ids, deps, order.take(i), x) ==> lex_le(order[i], x)
    }
}

/// The load order is the alphabetically smallest of all load orders: where
/// a greedy load order first differs from any other load order, its id comes
/// first alphabetically.
pub proof fn lemma_greedy_order_smallest(
    ids: Seq<Seq<char>>,
    deps: Seq<(Seq<char>, Seq<Seq<char>>)>,
    g: Seq<Seq<char>>,
    t: Seq<Seq<char>>,
    i: int,
)
    requires
        is_topological_order(ids, deps, g),
        is_greedy_order(ids, deps, g),
        is_topological_order(ids, deps, t),
        0 <= i < g.len(),
        g.take(i) == t.take(i),
        g[i] != t[i],
    ensures
        lex_lt(g[i], t[i]),
{
    assert(t.len() == g.len());
    assert(ids.contains(t[i]) == t.contains(t[i]));
    assert(t.contains(t[i]));
    assert(!t.take(i).contains(t[i])) by {
        if t.take(i).contains(t[i]) {
            let j = choose|j: int| 0 <= j < i && t.take(i)[j] == t[i];
            assert(t[j] == t[i]);
        }
    }
    assert forall|k: int| 0 <= k < deps_of(deps, t[i]).len() implies g.take(i).contains(#[trigger] deps_of(deps, t[i])[k]) by {
        assert(t.take(i).contains(deps_of(deps, t[i])[k]));
    }
    assert(is_ready(ids, deps, g.take(i), t[i]));
    assert(lex_le(g[i], t[i]));
}

/// `o` is where ordering gets stuck: a greedy order after which no id is
/// ready.
pub open spec fn is_stuck_order(
    ids: Seq<Seq<char>>,
    deps: Seq<(Seq<char>, Seq<Seq<char>>)>,
    o: Seq<Seq<char>>,
) -> bool {
    is_greedy_order(ids, deps, o) && forall|x: Seq<char>| !is_ready(ids, deps, o, x)
}

/// Two greedy orders agree as far as both go.
proof fn lemma_greedy_prefix(
    ids: Seq<Seq<char>>,
    deps: Seq<(Seq<char>, Seq<Seq<char>>)>,
    a: Seq<Seq<char>>,
    b: Seq<Seq<char>>,
    i: int,
)
    requires
        is_greedy_order(ids, deps, a),
        is_greedy_order(ids, deps, b),
        0 <= i <= a.len(),
        i <= b.len(),
    ensures
        a.take(i) == b.take(i),
    decreases i,
{
    if i > 0 {
        lemma_greedy_prefix(ids, deps, a, b, i - 1);
        let j = i - 1;
        assert(is_ready(ids, deps, a.take(j), a[j]));
        assert(is_ready(ids, deps, b.take(j), b[j]));
        assert(lex_le(a[j], b[j]));
        assert(lex_le(b[j], a[j]));
        if a[j] != b[j] {
            lemma_lex_asymmetric(a[j], b[j]);
        }
        assert(a.take(i) =~= a.take(j).push(a[j]));
        assert(b.take(i) =~= b.take(j).push(b[j]));
    } else {
        assert(a.take(0) =~= b.take(0));
    }
}

/// Ordering gets stuck at one place only: two greedy orders after which no
/// id is ready are the same.
pub proof fn lemma_stuck_order_unique(
    ids: Seq<Seq<char>>,
    deps: Seq<(Seq<char>, Seq<Seq<char>>)>,
    a: Seq<Seq<char>>,
    b: Seq<Seq<char>>,
)
    requires
        is_stuck_order(ids, deps, a),
        is_stuck_order(ids, deps, b),
    ensures
        a == b,
{
    if a.len() < b.len() {
        lemma_greedy_prefix(ids, deps, a, b, a.len() as int);
        assert(a.take(a.len() as int) =~= a);
        assert(is_ready(ids, deps, b.take(a.len() as int), b[a.len() as int]));
    } else if b.len() < a.len() {
        lemma_greedy_prefix(ids, deps, a, b, b.len() as int);
        assert(b.take(b.len() as int) =~= b);
        assert(is_ready(ids, deps, a.take(b.len() as int), a[b.len() as int]));
    } else {
        lemma_greedy_prefix(ids, deps, a, b, a.len() as int);
        assert(a.take(a.len() as int) =~= a);
        assert(b.take(b.len() as int) =~= b);
    }
}

/// The text naming the cycle that blocks the ids `placed` leaves: the
/// cycle the walk names, or `unknown cycle` when no unplaced id leads to
/// a cycle.
pub open spec fn blocked_cycle_text(
    deps: Seq<(Seq<char>, Seq<Seq<char>>)>,
    ids: Seq<Seq<char>>,
    placed: Seq<Seq<char>>,
) -> Seq<char> {
    if exists|x: Seq<char>| on_cycle_path(deps, ids, placed, x) {
        walked_cycle_text(deps, ids, placed)
    } else {
        "unknown cycle"@
    }
}

/// Every dependency that an id of `ids` declares is itself one of `ids`.
pub open spec fn deps_within(ids: Seq<Seq<char>>, deps: Seq<(Seq<char>, Seq<Seq<char>>)>) -> bool {
    forall|x: Seq<char>, k: int| ids.contains(x) && 0 <= k < deps_of(deps, x).len()
        ==> ids.contains(#[trigger] deps_of(deps, x)[k])
}

/// The ids of `iv` that `ov` does not hold.
pub(crate) proof fn lemma_unplaced_seq(iv: Seq<Seq<char>>, ov: Seq<Seq<char>>) -> (u: Seq<Seq<char>>)
    ensures
        forall|y: Seq<char>| #[trigger] u.contains(y) <==> iv.contains(y) && !ov.contains(y),
{
    let pred = |x: Seq<char>| !ov.contains(x);
    let u = iv.filter(pred);
    assert forall|y: Seq<char>| #[trigger] u.contains(y) implies iv.contains(y) && !ov.contains(y) by {
        let j = choose|j: int| 0 <= j < u.len() && u[j] == y;
        iv.lemma_filter_pred(pred, j);
        iv.lemma_filter_contains_rev(pred, y);
    }
    assert forall|y: Seq<char>| iv.contains(y) && !ov.contains(y) implies #[trigger] u.contains(y) by {
        let j = choose|j: int| 0 <= j < iv.len() && iv[j] == y;
        iv.lemma_filter_contains(pred, j);
    }
    u
}

/// An unplaced lasso closes a dependency cycle.
pub(crate) proof fn lemma_lasso_cycle(
    dv: Seq<(Seq<char>, Seq<Seq<char>>)>,
    iv: Seq<Seq<char>>,
    pv: Seq<Seq<char>>,
    w: Seq<Seq<char>>,
)
    requires
        is_unplaced_lasso(dv, iv, pv, w),
    ensures
        exists|c: Seq<Seq<char>>| is_dependency_cycle(dv, iv, c),
{
    let i = choose|i: int| 0 <= i < w.drop_last().len() && w.drop_last()[i] == w.last();
    let c = w.subrange(i, w.len() as int);
    assert(c[0] == c.last());
    assert forall|k: int| 0 <= k < c.len() implies iv.contains(#[trigger] c[k]) by {
        assert(c[k] == w[i + k]);
    }
    assert forall|k: int| 0 <= k < c.len() - 1 implies deps_of(dv, #[trigger] c[k]).contains(c[k + 1]) by {
        assert(c[k] == w[i + k] && c[k + 1] == w[i + k + 1]);
    }
    assert(is_dependency_cycle(dv, iv, c));
}

/// When ordering gets stuck before placing every id, while the ids are
/// distinct and depend only on one another, a dependency cycle blocks it.
proof fn lemma_stuck_has_cycle(
    iv: Seq<Seq<char>>,
    dv: Seq<(Seq<char>, Seq<Seq<char>>)>,
    ov: Seq<Seq<char>>,
)
    requires
        iv.no_duplicates(),
        deps_within(iv, dv),
        forall|x: Seq<char>| !is_ready(iv, dv, ov, x),
        ov.len() < iv.len(),
    ensures
        exists|c: Seq<Seq<char>>| is_dependency_cycle(dv, iv, c),
{
    let u = lemma_unplaced_seq(iv, ov);
    assert forall|t: int| 0 <= t < u.len() implies has_dep_in(dv, #[trigger] u[t], u) by {
        let y = u[t];
        assert(u.contains(y));
        assert(!is_ready(iv, dv, ov, y));
        let k = choose|k: int| 0 <= k < deps_of(dv, y).len() && !ov.contains(#[trigger] deps_of(dv, y)[k]);
        assert(iv.contains(deps_of(dv, y)[k]));
        assert(u.contains(deps_of(dv, y)[k]));
    }
    if forall|y: Seq<char>| iv.contains(y) ==> ov.contains(y) {
        lemma_distinct_subseq_len(iv, ov);
    }
    let x = choose|y: Seq<char>| iv.contains(y) && !ov.contains(y);
    assert(u.contains(x));
    lemma_live_leads(dv, iv, ov, u, x);
    reveal(leads_to_cycle);
    let w = choose|w: Seq<Seq<char>>| #[trigger] is_unplaced_lasso(dv, iv, ov, w) && w[0] == x;
    lemma_lasso_cycle(dv, iv, ov, w);
}

/// Some load order exists: the ids are distinct and no dependency cycle
/// (or dependency on an id outside `ids`) blocks any of them.
pub open spec fn has_load_order(ids: Seq<Seq<char>>, deps: Seq<(Seq<char>, Seq<Seq<char>>)>) -> bool {
    exists|o: Seq<Seq<char>>| is_topological_order(ids, deps, o)
}

/// A sequence without duplicates whose elements all occur in `b` is no
/// longer than `b`.
pub proof fn lemma_distinct_subseq_len<A>(a: Seq<A>, b: Seq<A>)
    requires
        a.no_duplicates(),
        forall|x: A| a.contains(x) ==> b.contains(x),
    ensures
        a.len() <= b.len(),
        a.len() == b.len() ==> (forall|x: A| b.contains(x) ==> a.contains(x)),
        a.len() == b.len() ==> b.no_duplicates(),
{
    a.unique_seq_to_set();
    b.lemma_cardinality_of_set();
    assert(a.to_set().subset_of(b.to_set()));
    vstd::set_lib::lemma_len_subset(a.to_set(), b.to_set());
    if a.len() == b.len() {
        assert(a.to_set().len() == b.to_set().len());
        vstd::set_lib::lemma_subset_equality(a.to_set(), b.to_set());
        assert forall|x: A| b.contains(x) implies a.contains(x) by {
            assert(b.to_set().contains(x));
        }
        b.lemma_no_dup_set_cardinality();
    }
}

/// Whether `v` holds a string equal to `x`.
pub fn contains_str(v: &Vec<String>, x: &str) -> (r: bool)
    ensures
        r == v.deep_view().contains(x@),
{
    let mut i: usize = 0;
    while i < v.len()
        invariant
            i <= v@.len(),
            forall|k: int| 0 <= k < i ==> v.deep_view()[k] != x@,
        decreases v@.len() - i,
    {
        if str_eq(v[i].as_str(), x) {
            assert(v.deep_view()[i as int] == x@);
            return true;
        }
        i = i + 1;
    }
    proof {
        if v.deep_view().contains(x@) {
            let k = choose|k: int| 0 <= k < v.deep_view().len() && v.deep_view()[k] == x@;
            assert(v.deep_view()[k] != x@);
        }
    }
    false
}

/// The position of the first entry of `deps` keyed by `id`.
fn find_dep_entry(deps: &[(String, Vec<String>)], id: &str) -> (r: Option<usize>)
    ensures
        match r {
            Some(j) => dep_entry_index(deps.deep_view(), id@) == Some(j as int) && j < deps@.len(),
            None => dep_entry_index(deps.deep_view(), id@) is None,
        },
{
    let ghost dv = deps.deep_view();
    reveal(dep_entry_index);
    let mut j: usize = 0;
    while j < deps.len()
        invariant
            dv == deps.deep_view(),
            j <= deps@.len(),
            forall|k: int| 0 <= k < j ==> dv[k].0 != id@,
        decreases deps@.len() - j,
    {
        if str_eq(deps[j].0.as_str(), id) {
            proof {
                reveal(dep_entry_index);
                assert(dv[j as int].0 == id@);
                let c = choose|c: int| 0 <= c < dv.len() && dv[c].0 == id@
                    && forall|k: int| 0 <= k < c ==> dv[k].0 != id@;
                if c < j {
                } else if c > j {
                    assert(dv[j as int].0 != id@);
                }
            }
            return Some(j);
        }
        j = j + 1;
    }
    None
}

/// Whether every string of `ds` occurs in `placed`.
fn all_placed(placed: &Vec<String>, ds: &Vec<String>) -> (r: bool)
    ensures
        r == forall|k: int| 0 <= k < ds.deep_view().len() ==> placed.deep_view().contains(
            #[trigger] ds.deep_view()[k],
        ),
{
    let mut i: usize = 0;
    while i < ds.len()
        invariant
            i <= ds@.len(),
            forall|k: int| 0 <= k < i ==> placed.deep_view().contains(#[trigger] ds.deep_view()[k]),
        decreases ds@.len() - i,
    {
        if !contains_str(placed, ds[i].as_str()) {
            assert(ds.deep_view()[i as int] == ds[i as int]@);
            return false;
        }
        i = i + 1;
    }
    true
}

/// Whether `x` is ready to be placed after `placed`.
fn ready(ids: &[String], deps: &[(String, Vec<String>)], placed: &Vec<String>, i: usize) -> (r: bool)
    requires
        i < ids@.len(),
    ensures
        r == is_ready(ids.deep_view(), deps.deep_view(), placed.deep_view(), ids.deep_view()[i as int]),
{
    let x = ids[i].as_str();
    assert(ids.deep_view().contains(x@)) by {
        assert(ids.deep_view()[i as int] == x@);
    }
    if contains_str(placed, x) {
        return false;
    }
    match find_dep_entry(deps, x) {
        Some(e) => {
            let r = all_placed(placed, &deps[e].1);
            proof {
                assert(deps.deep_view()[e as int].1 == deps[e as int].1.deep_view());
            }
            r
        },
        None => true,
    }
}

/// The position in `ids` of the alphabetically smallest id ready to be
/// placed after `placed`, if any is ready.
fn smallest_ready(ids: &[String], deps: &[(String, Vec<String>)], placed: &Vec<String>) -> (r: Option<usize>)
    ensures
        match r {
            Some(b) => b < ids@.len() && is_ready(ids.deep_view(), deps.deep_view(), placed.deep_view(), ids.deep_view()[b as int])
                && forall|x: Seq<char>| is_ready(ids.deep_view(), deps.deep_view(), placed.deep_view(), x)
                    ==> lex_le(ids.deep_view()[b as int], x),
            None => forall|x: Seq<char>| !is_ready(ids.deep_view(), deps.deep_view(), placed.deep_view(), x),
        },
{
    let ghost iv = ids.deep_view();
    let ghost dv = deps.deep_view();
    let ghost pv = placed.deep_view();
    let mut best: Option<usize> = None;
    let mut i: usize = 0;
    while i < ids.len()
        invariant
            iv == ids.deep_view(),
            dv == deps.deep_view(),
            pv == placed.deep_view(),
            i <= iv.len(),
            best matches Some(b) ==> b < i && is_ready(iv, dv, pv, iv[b as int]),
            forall|k: int| 0 <= k < i && #[trigger] is_ready(iv, dv, pv, iv[k]) ==> (best matches Some(b)
                && lex_le(iv[b as int], iv[k])),
        decreases iv.len() - i,
    {
        if ready(ids, deps, placed, i) {
            match best {
                None => {
                    best = Some(i);
                },
                Some(b) => {
                    if str_lt(ids[i].as_str(), ids[b].as_str()) {
                        proof {
                            assert forall|k: int| 0 <= k < i && #[trigger] is_ready(iv, dv, pv, iv[k]) implies lex_le(iv[i as int], iv[k]) by {
                                if iv[b as int] != iv[k] {
                                    lemma_lex_transitive(iv[i as int], iv[b as int], iv[k]);
                                }
                            }
                        }
                        best = Some(i);
                    } else {
                        proof { lemma_lex_total(iv[b as int], iv[i as int]); }
                    }
                },
            }
        }
        i = i + 1;
    }
    proof {
        assert forall|x: Seq<char>| is_ready(iv, dv, pv, x) implies (best matches Some(b) && lex_le(iv[b as int], x)) by {
            let k = choose|k: int| 0 <= k < iv.len() && iv[k] == x;
            assert(is_ready(iv, dv, pv, iv[k]));
        }
    }
    best
}

/// Compute a topological load order for the given datatype ids.
///
/// `deps` maps a datatype id to the ids it depends on (the first entry for
/// an id is the one that counts). The result lists every id after all of its
/// dependencies; among ids that could come next, the alphabetically smallest
/// comes first. When no such order exists (a dependency cycle, a dependency
/// that is not among `ids`, or an id listed twice) the result is
/// `CircularDependency`, whose text describes a cycle found among the ids
/// that could not be placed.
pub fn resolve_load_order(ids: &[String], deps: &[(String, Vec<String>)]) -> (r: Result<Vec<String>, EngineError>)
    ensures
        r is Ok <==> has_load_order(ids.deep_view(), deps.deep_view()),
        r matches Ok(o) ==> is_topological_order(ids.deep_view(), deps.deep_view(), o.deep_view()),
        r matches Ok(o) ==> is_greedy_order(ids.deep_view(), deps.deep_view(), o.deep_view()),
        ids.deep_view().no_duplicates() && deps_within(ids.deep_view(), deps.deep_view())
            ==> (r is Ok <==> !exists|c: Seq<Seq<char>>| is_dependency_cycle(deps.deep_view(), ids.deep_view(), c)),
        r matches Err(e) ==> e is CircularDependency,
        r matches Err(EngineError::CircularDependency { cycle }) ==> exists|o: Seq<Seq<char>>|
            #[trigger] is_stuck_order(ids.deep_view(), deps.deep_view(), o)
            && cycle@ == blocked_cycle_text(deps.deep_view(), ids.deep_view(), o),
        r matches Err(EngineError::CircularDependency { cycle }) ==> {
            &&& (exists|c: Seq<Seq<char>>| is_dependency_cycle(deps.deep_view(), ids.deep_view(), c))
                ==> exists|c: Seq<Seq<char>>| #[trigger] is_dependency_cycle(deps.deep_view(), ids.deep_view(), c)
                    && cycle@ == arrow_join(c)
            &&& !(exists|c: Seq<Seq<char>>| is_dependency_cycle(deps.deep_view(), ids.deep_view(), c))
                ==> cycle@ == "unknown cycle"@
        },
{
    let ghost iv = ids.deep_view();
    let ghost dv = deps.deep_view();
    let mut order: Vec<String> = Vec::new();
    loop
        invariant
            iv == ids.deep_view(),
            dv == deps.deep_view(),
            order.deep_view().no_duplicates(),
            forall|x: Seq<char>| order.deep_view().contains(x) ==> iv.contains(x),
            order.deep_view().len() <= iv.len(),
            is_greedy_order(iv, dv, order.deep_view()),
        ensures
            order.deep_view().no_duplicates(),
            forall|x: Seq<char>| order.deep_view().contains(x) ==> iv.contains(x),
            is_greedy_order(iv, dv, order.deep_view()),
            forall|x: Seq<char>| !is_ready(iv, dv, order.deep_view(), x),
            forall|i: int, k: int| 0 <= i < order.deep_view().len() && 0 <= k < deps_of(dv, order.deep_view()[i]).len()
                ==> order.deep_view().take(i).contains(#[trigger] deps_of(dv, order.deep_view()[i])[k]),
            forall|i: int, k: int| 0 <= i < order.deep_view().len() && 0 <= k < deps_of(dv, order.deep_view()[i]).len()
                ==> order.deep_view().take(i).contains(#[trigger] deps_of(dv, order.deep_view()[i])[k]),
        decreases iv.len() - order.deep_view().len(),
    {
        let ghost ov = order.deep_view();
        match smallest_ready(ids, deps, &order) {
            None => {
                break;
            },
            Some(b) => {
                let s = ids[b].clone();
                order.push(s);
                proof {
                    let nv = order.deep_view();
                    assert(nv == ov.push(iv[b as int]));
                    assert(nv.take(ov.len() as int) == ov);
                    assert forall|i: int| 0 <= i < ov.len() implies nv.take(i) == ov.take(i) by {}
                    assert(nv.no_duplicates()) by {
                        assert forall|p: int, q: int| 0 <= p < q < nv.len() implies nv[p] != nv[q] by {
                            if q == ov.len() {
                                assert(ov.contains(nv[p]));
                            }
                        }
                    }
                    assert forall|x: Seq<char>| nv.contains(x) implies iv.contains(x) by {
                        if x != iv[b as int] {
                            let k = choose|k: int| 0 <= k < nv.len() && nv[k] == x;
                            assert(ov.contains(x));
                        }
                    }
                    lemma_distinct_subseq_len(nv, iv);
                    assert(is_greedy_order(iv, dv, nv)) by {
                        assert forall|i: int| 0 <= i < nv.len() implies {
                            &&& is_ready(iv, dv, nv.take(i), #[trigger] nv[i])
                            &&& forall|x: Seq<char>| is_ready(iv, dv, nv.take(i), x) ==> lex_le(nv[i], x)
                        } by {
                            if i < ov.len() {
                                assert(nv.take(i) == ov.take(i));
                            } else {
                                assert(nv.take(i) == ov);
                            }
                        }
                    }
                    assert forall|i: int, k: int| 0 <= i < nv.len() && 0 <= k < deps_of(dv, nv[i]).len()
                        implies nv.take(i).contains(#[trigger] deps_of(dv, nv[i])[k]) by {
                        if i < ov.len() {
                            assert(nv.take(i) == ov.take(i));
                        } else {
                            assert(nv.take(i) == ov);
                            assert(is_ready(iv, dv, ov, iv[b as int]));
                        }
                    }
                }
            },
        }
    }
    let ghost ov = order.deep_view();
    if order.len() == ids.len() {
        proof {
            lemma_distinct_subseq_len(ov, iv);
            assert(is_topological_order(iv, dv, ov));
            if exists|c: Seq<Seq<char>>| is_dependency_cycle(dv, iv, c) {
                let c = choose|c: Seq<Seq<char>>| is_dependency_cycle(dv, iv, c);
                assert(ov.contains(c[0]));
                let i = choose|i: int| 0 <= i < ov.len() && ov[i] == c[0];
                lemma_placed_not_on_cycle(dv, iv, ov, c, i);
            }
        }
        Ok(order)
    } else {
        proof {
            lemma_no_order_when_stuck(iv, dv, ov);
            if iv.no_duplicates() && deps_within(iv, dv) {
                lemma_distinct_subseq_len(ov, iv);
                lemma_stuck_has_cycle(iv, dv, ov);
            }
        }
        let cycle = crate::registry::dependency::describe_cycle(ids, deps, &order);
        proof {
            assert(is_stuck_order(iv, dv, ov));
            assert(cycle@ == blocked_cycle_text(dv, iv, ov));
            assert forall|c: Seq<Seq<char>>| is_dependency_cycle(dv, iv, c) implies #[trigger] is_unplaced_cycle(dv, iv, ov, c) by {
                assert forall|m: int| 0 <= m < c.len() implies !ov.contains(#[trigger] c[m]) by {
                    if ov.contains(c[m]) {
                        let i = choose|i: int| 0 <= i < ov.len() && ov[i] == c[m];
                        lemma_placed_not_on_cycle(dv, iv, ov, c, i);
                    }
                }
            }
            if exists|c: Seq<Seq<char>>| is_dependency_cycle(dv, iv, c) {
                let c0 = choose|c: Seq<Seq<char>>| is_dependency_cycle(dv, iv, c);
                assert(is_unplaced_cycle(dv, iv, ov, c0));
                let c1 = choose|c: Seq<Seq<char>>| #[trigger] is_unplaced_cycle(dv, iv, ov, c) && cycle@ == arrow_join(c);
                assert(is_dependency_cycle(dv, iv, c1));
            } else {
                assert(!exists|c: Seq<Seq<char>>| is_unplaced_cycle(dv, iv, ov, c));
            }
        }
        Err(EngineError::CircularDependency { cycle })
    }
}

/// An id placed after all of its dependencies lies on no dependency cycle.
proof fn lemma_placed_not_on_cycle(
    dv: Seq<(Seq<char>, Seq<Seq<char>>)>,
    iv: Seq<Seq<char>>,
    ov: Seq<Seq<char>>,
    c: Seq<Seq<char>>,
    i: int,
)
    requires
        forall|a: int, k: int| 0 <= a < ov.len() && 0 <= k < deps_of(dv, ov[a]).len()
            ==> ov.take(a).contains(#[trigger] deps_of(dv, ov[a])[k]),
        is_dependency_cycle(dv, iv, c),
        0 <= i < ov.len(),
    ensures
        forall|m: int| 0 <= m < c.len() ==> c[m] != ov[i],
    decreases i,
{
    assert forall|m: int| 0 <= m < c.len() implies c[m] != ov[i] by {
        if c[m] == ov[i] {
            let m2 = if m == c.len() - 1 { 0 } else { m };
            assert(c[m2] == c[m]);
            assert(deps_of(dv, c[m2]).contains(c[m2 + 1]));
            let k = choose|k: int| 0 <= k < deps_of(dv, c[m2]).len() && deps_of(dv, c[m2])[k] == c[m2 + 1];
            assert(ov.take(i).contains(deps_of(dv, ov[i])[k]));
            let j = choose|j: int| 0 <= j < ov.take(i).len() && ov.take(i)[j] == c[m2 + 1];
            assert(ov[j] == c[m2 + 1]);
            lemma_placed_not_on_cycle(dv, iv, ov, c, j);
        }
    }
}

/// When no id is ready after `placed` yet `placed` is not a full order of
/// the ids, no load order exists at all.
proof fn lemma_no_order_when_stuck(
    ids: Seq<Seq<char>>,
    deps: Seq<(Seq<char>, Seq<Seq<char>>)>,
    placed: Seq<Seq<char>>,
)
    requires
        placed.no_duplicates(),
        forall|x: Seq<char>| placed.contains(x) ==> ids.contains(x),
        forall|x: Seq<char>| !is_ready(ids, deps, placed, x),
        placed.len() != ids.len(),
    ensures
        !has_load_order(ids, deps),
{
    if has_load_order(ids, deps) {
        let o = choose|o: Seq<Seq<char>>| is_topological_order(ids, deps, o);
        if exists|x: Seq<char>| ids.contains(x) && !placed.contains(x) {
            // The first id of `o` that is not placed has all of its
            // dependencies earlier in `o`, hence placed: it would be ready.
            let x0 = choose|x: Seq<char>| ids.contains(x) && !placed.contains(x);
            assert(o.contains(x0));
            let i0 = choose|i: int| 0 <= i < o.len() && o[i] == x0;
            let i = first_unplaced(o, placed, i0);
            assert forall|k: int| 0 <= k < deps_of(deps, o[i]).len() implies placed.contains(
                #[trigger] deps_of(deps, o[i])[k]) by {
                assert(o.take(i).contains(deps_of(deps, o[i])[k]));
                let j = choose|j: int| 0 <= j < o.take(i).len() && o.take(i)[j] == deps_of(deps, o[i])[k];
                assert(o[j] == deps_of(deps, o[i])[k]);
            }
            assert(ids.contains(o[i]));
            assert(is_ready(ids, deps, placed, o[i]));
        } else {
            assert forall|x: Seq<char>| ids.contains(x) implies placed.contains(x) by {}
            lemma_distinct_subseq_len(placed, ids);
            lemma_distinct_subseq_len(o, ids);
            assert forall|x: Seq<char>| o.contains(x) implies placed.contains(x) by {}
            lemma_distinct_subseq_len(o, placed);
            assert forall|x: Seq<char>| placed.contains(x) implies o.contains(x) by {}
            lemma_distinct_subseq_len(placed, o);
        }
    }
}

/// The smallest position at or before `i0` whose element is not placed.
proof fn first_unplaced(o: Seq<Seq<char>>, placed: Seq<Seq<char>>, i0: int) -> (i: int)
    requires
        0 <= i0 < o.len(),
        !placed.contains(o[i0]),
    ensures
        0 <= i <= i0,
        !placed.contains(o[i]),
        forall|j: int| 0 <= j < i ==> placed.contains(o[j]),
    decreases i0,
{
    if exists|j: int| 0 <= j < i0 && !placed.contains(o[j]) {
        let j = choose|j: int| 0 <= j < i0 && !placed.contains(o[j]);
        first_unplaced(o, placed, j)
    } else {
        i0
    }
}

} // verus!

verus! {

/// The ids of `path` joined by `" → "`, as in `a → b → a`.
pub open spec fn arrow_join(path: Seq<Seq<char>>) -> Seq<char>
    decreases path.len(),
{
    if path.len() == 0 {
        Seq::empty()
    } else if path.len() == 1 {
        path[0]
    } else {
        arrow_join(path.drop_last()) + " \u{2192} "@ + path.last()
    }
}

/// `c` is a dependency cycle among the ids in `nodes`: it starts and ends at
/// the same id, each id depends on the next one, and every id is in `nodes`.
pub open spec fn is_dependency_cycle(
    deps: Seq<(Seq<char>, Seq<Seq<char>>)>,
    nodes: Seq<Seq<char>>,
    c: Seq<Seq<char>>,
) -> bool {
    &&& c.len() >= 2
    &&& c[0] == c.last()
    &&& forall|k: int| 0 <= k < c.len() ==> nodes.contains(#[trigger] c[k])
    &&& forall|k: int| 0 <= k < c.len() - 1 ==> deps_of(deps, #[trigger] c[k]).contains(c[k + 1])
}

/// `s` is in strictly increasing alphabetical order.
pub open spec fn is_sorted_ids(s: Seq<Seq<char>>) -> bool {
    forall|i: int, j: int| 0 <= i < j < s.len() ==> lex_lt(#[trigger] s[i], #[trigger] s[j])
}

/// Inserting `x` at the first place whose id comes after it keeps a sorted
/// sequence without `x` sorted.
proof fn lemma_sorted_insert(s: Seq<Seq<char>>, x: Seq<char>, pos: int)
    requires
        is_sorted_ids(s),
        !s.contains(x),
        0 <= pos <= s.len(),
        forall|k: int| 0 <= k < pos ==> !lex_lt(x, #[trigger] s[k]),
        pos < s.len() ==> lex_lt(x, s[pos]),
    ensures
        is_sorted_ids(s.insert(pos, x)),
{
    let t = s.insert(pos, x);
    assert forall|k: int| 0 <= k < pos implies lex_lt(#[trigger] s[k], x) by {
        lemma_lex_total(s[k], x);
    }
    assert forall|k: int| pos <= k < s.len() implies lex_lt(x, #[trigger] s[k]) by {
        if k > pos {
            lemma_lex_transitive(x, s[pos], s[k]);
        }
    }
    assert forall|i: int, j: int| 0 <= i < j < t.len() implies lex_lt(#[trigger] t[i], #[trigger] t[j]) by {
        if j < pos {
            assert(t[i] == s[i] && t[j] == s[j]);
        } else if j == pos {
            assert(t[i] == s[i]);
        } else if i < pos {
            assert(t[i] == s[i] && t[j] == s[j - 1]);
            lemma_lex_transitive(s[i], x, s[j - 1]);
        } else if i == pos {
            assert(t[j] == s[j - 1]);
        } else {
            assert(t[i] == s[i - 1] && t[j] == s[j - 1]);
        }
    }
}

/// The ids listed in `ids` that are not in `placed`, each once, in
/// alphabetical order.
fn unplaced_sorted(ids: &[String], placed: &Vec<String>) -> (r: Vec<String>)
    ensures
        forall|x: Seq<char>| r.deep_view().contains(x) <==> (ids.deep_view().contains(x) && !placed.deep_view().contains(x)),
        is_sorted_ids(r.deep_view()),
{
    let ghost iv = ids.deep_view();
    let mut r: Vec<String> = Vec::new();
    let mut i: usize = 0;
    while i < ids.len()
        invariant
            iv == ids.deep_view(),
            i <= iv.len(),
            forall|x: Seq<char>| r.deep_view().contains(x) <==> (iv.take(i as int).contains(x) && !placed.deep_view().contains(x)),
            is_sorted_ids(r.deep_view()),
        decreases iv.len() - i,
    {
        let ghost before = r.deep_view();
        let x = ids[i].as_str();
        assert(iv.take(i + 1) == iv.take(i as int).push(x@));
        let ghost t1 = iv.take(i + 1);
        let ghost t0 = iv.take(i as int);
        assert forall|y: Seq<char>| t1.contains(y) <==> (t0.contains(y) || y == x@) by {
            if t1.contains(y) {
                let k = choose|k: int| 0 <= k < t1.len() && t1[k] == y;
                if k < i { assert(t0[k] == y); }
            }
            if t0.contains(y) {
                let k = choose|k: int| 0 <= k < t0.len() && t0[k] == y;
                assert(t1[k] == y);
            }
            if y == x@ { assert(t1[i as int] == y); }
        }
        if !contains_str(placed, x) && !contains_str(&r, x) {
            let mut pos: usize = 0;
            while pos < r.len() && !str_lt(x, r[pos].as_str())
                invariant
                    pos <= r@.len(),
                    before == r.deep_view(),
                    forall|k: int| 0 <= k < pos ==> !lex_lt(x@, #[trigger] before[k]),
                decreases r@.len() - pos,
            {
                assert(r@[pos as int]@ == before[pos as int]);
                pos = pos + 1;
            }
            proof {
                if pos < before.len() {
                    assert(r@[pos as int]@ == before[pos as int]);
                }
            }
            r.insert(pos, ids[i].clone());
            proof {
                let after = r.deep_view();
                assert(after == before.insert(pos as int, x@));
                lemma_sorted_insert(before, x@, pos as int);
                assert forall|y: Seq<char>| after.contains(y) <==> (before.contains(y) || y == x@) by {
                    if after.contains(y) {
                        let k = choose|k: int| 0 <= k < after.len() && after[k] == y;
                        if k < pos { assert(before[k] == y); } else if k > pos { assert(before[k - 1] == y); }
                    }
                    if before.contains(y) {
                        let k = choose|k: int| 0 <= k < before.len() && before[k] == y;
                        if k < pos { assert(after[k] == y); } else { assert(after[k + 1] == y); }
                    }
                    if y == x@ { assert(after[pos as int] == y); }
                }
            }
        }
        i = i + 1;
    }
    assert(iv.take(iv.len() as int) == iv);
    r
}

/// The position of the first occurrence of `x` in `v`.
fn position_of(v: &Vec<String>, x: &str) -> (r: Option<usize>)
    ensures
        r matches Some(p) ==> p < v@.len() && v.deep_view()[p as int] == x@,
        r is None ==> !v.deep_view().contains(x@),
{
    let mut i: usize = 0;
    while i < v.len()
        invariant
            i <= v@.len(),
            forall|k: int| 0 <= k < i ==> v.deep_view()[k] != x@,
        decreases v@.len() - i,
    {
        if str_eq(v[i].as_str(), x) {
            return Some(i);
        }
        i = i + 1;
    }
    proof {
        if v.deep_view().contains(x@) {
            let k = choose|k: int| 0 <= k < v.deep_view().len() && v.deep_view()[k] == x@;
            assert(v.deep_view()[k] != x@);
        }
    }
    None
}

/// A walk through the dependency graph whose last id depends on one of its
/// own ids closes a dependency cycle.
proof fn lemma_cycle_from_path(
    dv: Seq<(Seq<char>, Seq<Seq<char>>)>,
    iv: Seq<Seq<char>>,
    pv: Seq<Seq<char>>,
    rv: Seq<Seq<char>>,
    path: Seq<Seq<char>>,
    p: int,
    next: Seq<char>,
)
    requires
        0 <= p < path.len(),
        path[p] == next,
        deps_of(dv, path.last()).contains(next),
        forall|x: Seq<char>| #[trigger] rv.contains(x) ==> (iv.contains(x) && !pv.contains(x)),
        forall|k: int| 0 <= k < path.len() ==> rv.contains(#[trigger] path[k]),
        forall|k: int| 0 <= k < path.len() - 1 ==> deps_of(dv, #[trigger] path[k]).contains(path[k + 1]),
    ensures
        is_dependency_cycle(dv, iv, path.subrange(p, path.len() as int).push(next)),
        forall|k: int| 0 <= k < path.subrange(p, path.len() as int).push(next).len()
            ==> !pv.contains(#[trigger] path.subrange(p, path.len() as int).push(next)[k]),
{
    let c = path.subrange(p, path.len() as int).push(next);
    lemma_cycle_members(iv, pv, rv, path, p, next);
    lemma_cycle_edges(dv, path, p, next);
    assert(c[0] == path[p]);
}

proof fn lemma_cycle_members(
    iv: Seq<Seq<char>>,
    pv: Seq<Seq<char>>,
    rv: Seq<Seq<char>>,
    path: Seq<Seq<char>>,
    p: int,
    next: Seq<char>,
)
    requires
        0 <= p < path.len(),
        path[p] == next,
        forall|x: Seq<char>| #[trigger] rv.contains(x) ==> (iv.contains(x) && !pv.contains(x)),
        forall|k: int| 0 <= k < path.len() ==> rv.contains(#[trigger] path[k]),
    ensures
        forall|k: int| 0 <= k < path.subrange(p, path.len() as int).push(next).len()
            ==> iv.contains(#[trigger] path.subrange(p, path.len() as int).push(next)[k])
                && !pv.contains(path.subrange(p, path.len() as int).push(next)[k]),
{
    let c = path.subrange(p, path.len() as int).push(next);
    assert forall|k: int| 0 <= k < c.len() implies iv.contains(#[trigger] c[k]) && !pv.contains(c[k]) by {
        if k < c.len() - 1 {
            assert(c[k] == path[p + k]);
            assert(rv.contains(path[p + k]));
        } else {
            assert(c[k] == path[p]);
            assert(rv.contains(path[p]));
        }
    }
}

proof fn lemma_cycle_edges(
    dv: Seq<(Seq<char>, Seq<Seq<char>>)>,
    path: Seq<Seq<char>>,
    p: int,
    next: Seq<char>,
)
    requires
        0 <= p < path.len(),
        deps_of(dv, path.last()).contains(next),
        forall|k: int| 0 <= k < path.len() - 1 ==> deps_of(dv, #[trigger] path[k]).contains(path[k + 1]),
    ensures
        forall|k: int| 0 <= k < path.subrange(p, path.len() as int).push(next).len() - 1
            ==> deps_of(dv, #[trigger] path.subrange(p, path.len() as int).push(next)[k])
                .contains(path.subrange(p, path.len() as int).push(next)[k + 1]),
{
    let c = path.subrange(p, path.len() as int).push(next);
    assert forall|k: int| 0 <= k < c.len() - 1 implies deps_of(dv, #[trigger] c[k]).contains(c[k + 1]) by {
        if k < c.len() - 2 {
            assert(c[k] == path[p + k]);
            assert(c[k + 1] == path[p + k + 1]);
        } else {
            assert(c[k] == path.last());
            assert(c[k + 1] == next);
        }
    }
}

/// Extending a walk by a dependency of its last id keeps it a walk.
proof fn lemma_walk_extend(
    dv: Seq<(Seq<char>, Seq<Seq<char>>)>,
    rv: Seq<Seq<char>>,
    path: Seq<Seq<char>>,
    next: Seq<char>,
)
    requires
        path.len() > 0,
        rv.contains(next),
        deps_of(dv, path.last()).contains(next),
        forall|k: int| 0 <= k < path.len() ==> rv.contains(#[trigger] path[k]),
        forall|k: int| 0 <= k < path.len() - 1 ==> deps_of(dv, #[trigger] path[k]).contains(path[k + 1]),
    ensures
        forall|k: int| 0 <= k < path.push(next).len() ==> rv.contains(#[trigger] path.push(next)[k]),
        forall|k: int| 0 <= k < path.push(next).len() - 1 ==> deps_of(dv, #[trigger] path.push(next)[k]).contains(path.push(next)[k + 1]),
{
    let nw = path.push(next);
    assert forall|k: int| 0 <= k < nw.len() - 1 implies deps_of(dv, #[trigger] nw[k]).contains(nw[k + 1]) by {
        if k < nw.len() - 2 {
            assert(nw[k] == path[k] && nw[k + 1] == path[k + 1]);
        } else {
            assert(nw[k] == path.last());
        }
    }
    assert forall|k: int| 0 <= k < nw.len() implies rv.contains(#[trigger] nw[k]) by {
        if k < nw.len() - 1 { assert(nw[k] == path[k]); }
    }
}

/// The strings `v[from..]` followed by `last`, joined by `" → "`.
fn join_cycle(v: &Vec<String>, from: usize, last: &str) -> (r: String)
    requires
        from < v@.len(),
    ensures
        r@ == arrow_join(v.deep_view().subrange(from as int, v@.len() as int).push(last@)),
{
    let ghost dv = v.deep_view();
    let mut r = v[from].clone();
    assert(from < v.len());
    let mut i: usize = from + 1;
    assert(dv.subrange(from as int, from + 1) == seq![dv[from as int]]);
    while i < v.len()
        invariant
            dv == v.deep_view(),
            from < i <= v@.len(),
            r@ == arrow_join(dv.subrange(from as int, i as int)),
        decreases v@.len() - i,
    {
        r.append(" \u{2192} ");
        r.append(v[i].as_str());
        assert(dv.subrange(from as int, i + 1).drop_last() == dv.subrange(from as int, i as int));
        i = i + 1;
    }
    r.append(" \u{2192} ");
    r.append(last);
    assert(dv.subrange(from as int, dv.len() as int).push(last@).drop_last() == dv.subrange(from as int, dv.len() as int));
    r
}

/// `c` is a dependency cycle among the ids of `ids` that `placed` does not
/// hold.
pub open spec fn is_unplaced_cycle(
    deps: Seq<(Seq<char>, Seq<Seq<char>>)>,
    ids: Seq<Seq<char>>,
    placed: Seq<Seq<char>>,
    c: Seq<Seq<char>>,
) -> bool {
    &&& is_dependency_cycle(deps, ids, c)
    &&& forall|k: int| 0 <= k < c.len() ==> !placed.contains(#[trigger] c[k])
}

/// `w` is a walk among the ids of `ids` that `placed` does not hold: each
/// of its ids depends on the next.
pub open spec fn is_unplaced_walk(
    deps: Seq<(Seq<char>, Seq<Seq<char>>)>,
    ids: Seq<Seq<char>>,
    placed: Seq<Seq<char>>,
    w: Seq<Seq<char>>,
) -> bool {
    &&& w.len() >= 1
    &&& forall|k: int| 0 <= k < w.len() ==> ids.contains(#[trigger] w[k]) && !placed.contains(w[k])
    &&& forall|k: int| 0 <= k < w.len() - 1 ==> deps_of(deps, #[trigger] w[k]).contains(w[k + 1])
}

/// `w` is an unplaced walk whose last id is one it met before.
pub open spec fn is_unplaced_lasso(
    deps: Seq<(Seq<char>, Seq<Seq<char>>)>,
    ids: Seq<Seq<char>>,
    placed: Seq<Seq<char>>,
    w: Seq<Seq<char>>,
) -> bool {
    is_unplaced_walk(deps, ids, placed, w) && w.drop_last().contains(w.last())
}

/// From `x` a walk among the unplaced ids comes back to an id it met.
#[verifier::opaque]
pub open spec fn leads_to_cycle(
    deps: Seq<(Seq<char>, Seq<Seq<char>>)>,
    ids: Seq<Seq<char>>,
    placed: Seq<Seq<char>>,
    x: Seq<char>,
) -> bool {
    exists|w: Seq<Seq<char>>| #[trigger] is_unplaced_lasso(deps, ids, placed, w) && w[0] == x
}

/// `x` is unplaced and leads to a cycle.
pub open spec fn on_cycle_path(
    deps: Seq<(Seq<char>, Seq<Seq<char>>)>,
    ids: Seq<Seq<char>>,
    placed: Seq<Seq<char>>,
    x: Seq<char>,
) -> bool {
    ids.contains(x) && !placed.contains(x) && leads_to_cycle(deps, ids, placed, x)
}

/// Where the walk that names a cycle starts: the alphabetically first
/// unplaced id that leads to a cycle.
#[verifier::opaque]
pub open spec fn cycle_walk_start(
    deps: Seq<(Seq<char>, Seq<Seq<char>>)>,
    ids: Seq<Seq<char>>,
    placed: Seq<Seq<char>>,
) -> Seq<char> {
    choose|x: Seq<char>| on_cycle_path(deps, ids, placed, x)
        && forall|y: Seq<char>| #[trigger] on_cycle_path(deps, ids, placed, y) ==> lex_le(x, y)
}

/// Where the walk goes from `x`: the first dependency of `x`, in
/// declaration order, that is unplaced and leads to a cycle.
#[verifier::opaque]
pub open spec fn cycle_walk_step(
    deps: Seq<(Seq<char>, Seq<Seq<char>>)>,
    ids: Seq<Seq<char>>,
    placed: Seq<Seq<char>>,
    x: Seq<char>,
) -> Seq<char> {
    let ds = deps_of(deps, x);
    ds[choose|k: int| 0 <= k < ds.len() && on_cycle_path(deps, ids, placed, ds[k])
        && forall|t: int| 0 <= t < k ==> !on_cycle_path(deps, ids, placed, #[trigger] ds[t])]
}

/// The first `n + 1` ids of the walk that names a cycle.
pub open spec fn cycle_walk(
    deps: Seq<(Seq<char>, Seq<Seq<char>>)>,
    ids: Seq<Seq<char>>,
    placed: Seq<Seq<char>>,
    n: nat,
) -> Seq<Seq<char>>
    decreases n,
{
    if n == 0 {
        seq![cycle_walk_start(deps, ids, placed)]
    } else {
        let w = cycle_walk(deps, ids, placed, (n - 1) as nat);
        w.push(cycle_walk_step(deps, ids, placed, w.last()))
    }
}

/// The walk first comes back to an id it met after `n` steps.
pub open spec fn walk_closes_at(
    deps: Seq<(Seq<char>, Seq<Seq<char>>)>,
    ids: Seq<Seq<char>>,
    placed: Seq<Seq<char>>,
    n: nat,
) -> bool {
    &&& cycle_walk(deps, ids, placed, n).drop_last().contains(cycle_walk(deps, ids, placed, n).last())
    &&& forall|m: nat| m < n ==> !#[trigger] cycle_walk(deps, ids, placed, m).drop_last().contains(cycle_walk(deps, ids, placed, m).last())
}

/// The text that names the cycle the walk closes: from the id it comes
/// back to, around to that id again, joined by `" → "`.
#[verifier::opaque]
pub open spec fn walked_cycle_text(
    deps: Seq<(Seq<char>, Seq<Seq<char>>)>,
    ids: Seq<Seq<char>>,
    placed: Seq<Seq<char>>,
) -> Seq<char> {
    let n = choose|n: nat| walk_closes_at(deps, ids, placed, n);
    let w = cycle_walk(deps, ids, placed, n);
    let p = choose|p: int| 0 <= p < w.len() - 1 && w[p] == w.last();
    arrow_join(w.subrange(p, w.len() as int))
}

/// An id of an unplaced lasso whose ids all remain is not one without a
/// remaining dependency, so setting such an id aside keeps the lasso.
proof fn lemma_lasso_node_kept(
    dv: Seq<(Seq<char>, Seq<Seq<char>>)>,
    iv: Seq<Seq<char>>,
    pv: Seq<Seq<char>>,
    w: Seq<Seq<char>>,
    k: int,
    lv: Seq<Seq<char>>,
    x: Seq<char>,
    t: int,
)
    requires
        is_unplaced_lasso(dv, iv, pv, w),
        0 <= k < w.len(),
        0 <= t < lv.len(),
        lv[t] == x,
        !has_dep_in(dv, x, lv),
        forall|m: int| 0 <= m < w.len() ==> lv.contains(#[trigger] w[m]),
    ensures
        lv.remove(t).contains(w[k]),
{
    assert forall|m: int| 0 <= m < w.len() implies w[m] != x by {
        let m2 = if m == w.len() - 1 {
            choose|i: int| 0 <= i < w.drop_last().len() && w.drop_last()[i] == w.last()
        } else {
            m
        };
        assert(w[m2] == w[m]);
        assert(deps_of(dv, w[m2]).contains(w[m2 + 1]));
        let j = choose|j: int| 0 <= j < deps_of(dv, w[m2]).len() && deps_of(dv, w[m2])[j] == w[m2 + 1];
        assert(lv.contains(w[m2 + 1]));
        if w[m] == x {
            assert(lv.contains(deps_of(dv, x)[j]));
        }
    }
    let y = w[k];
    let j = choose|j: int| 0 <= j < lv.len() && lv[j] == y;
    assert(y != x);
    assert(j != t);
    if j < t {
        assert(lv.remove(t)[j] == y);
    } else {
        assert(lv.remove(t)[j - 1] == y);
    }
}

/// From an id of `lv`, where every id has a dependency in `lv`, a walk of
/// `n` steps stays in `lv`.
proof fn lemma_live_walk(dv: Seq<(Seq<char>, Seq<Seq<char>>)>, lv: Seq<Seq<char>>, x: Seq<char>, n: nat)
    -> (w: Seq<Seq<char>>)
    requires
        lv.contains(x),
        forall|t: int| 0 <= t < lv.len() ==> has_dep_in(dv, #[trigger] lv[t], lv),
    ensures
        w.len() == n + 1,
        w[0] == x,
        forall|k: int| 0 <= k < w.len() ==> lv.contains(#[trigger] w[k]),
        forall|k: int| 0 <= k < w.len() - 1 ==> deps_of(dv, #[trigger] w[k]).contains(w[k + 1]),
    decreases n,
{
    if n == 0 {
        seq![x]
    } else {
        let v = lemma_live_walk(dv, lv, x, (n - 1) as nat);
        let y = v.last();
        assert(lv.contains(y));
        let t = choose|t: int| 0 <= t < lv.len() && lv[t] == y;
        assert(has_dep_in(dv, lv[t], lv));
        let k = choose|k: int| 0 <= k < deps_of(dv, y).len() && lv.contains(#[trigger] deps_of(dv, y)[k]);
        let d = deps_of(dv, y)[k];
        let w = v.push(d);
        assert forall|m: int| 0 <= m < w.len() implies lv.contains(#[trigger] w[m]) by {
            if m < v.len() { assert(w[m] == v[m]); }
        }
        assert forall|m: int| 0 <= m < w.len() - 1 implies deps_of(dv, #[trigger] w[m]).contains(w[m + 1]) by {
            if m < v.len() - 1 {
                assert(w[m] == v[m] && w[m + 1] == v[m + 1]);
            } else {
                assert(w[m] == y);
                assert(deps_of(dv, y)[k] == w[m + 1]);
            }
        }
        w
    }
}

/// A walk longer than `lv` whose ids all come from `lv` meets some id twice.
proof fn lemma_walk_repeats(lv: Seq<Seq<char>>, w: Seq<Seq<char>>) -> (ab: (int, int))
    requires
        w.len() > lv.len(),
        forall|k: int| 0 <= k < w.len() ==> lv.contains(#[trigger] w[k]),
    ensures
        0 <= ab.0 < ab.1 < w.len(),
        w[ab.0] == w[ab.1],
{
    assert(!w.no_duplicates()) by {
        if w.no_duplicates() {
            assert forall|y: Seq<char>| w.contains(y) implies lv.contains(y) by {
                let k = choose|k: int| 0 <= k < w.len() && w[k] == y;
                assert(lv.contains(w[k]));
            }
            lemma_distinct_subseq_len(w, lv);
        }
    }
    let (i, j) = choose|i: int, j: int| 0 <= i < w.len() && 0 <= j < w.len() && i != j && w[i] == w[j];
    if i < j { (i, j) } else { (j, i) }
}

/// The beginning of an unplaced walk up to an id met before is a lasso.
proof fn lemma_walk_prefix_lasso(
    dv: Seq<(Seq<char>, Seq<Seq<char>>)>,
    iv: Seq<Seq<char>>,
    pv: Seq<Seq<char>>,
    lv: Seq<Seq<char>>,
    w: Seq<Seq<char>>,
    a: int,
    b: int,
)
    requires
        0 <= a < b < w.len(),
        w[a] == w[b],
        forall|k: int| 0 <= k < w.len() ==> lv.contains(#[trigger] w[k]),
        forall|k: int| 0 <= k < w.len() - 1 ==> deps_of(dv, #[trigger] w[k]).contains(w[k + 1]),
        forall|y: Seq<char>| #[trigger] lv.contains(y) ==> iv.contains(y) && !pv.contains(y),
    ensures
        is_unplaced_lasso(dv, iv, pv, w.take(b + 1)),
        w.take(b + 1)[0] == w[0],
{
    let v = w.take(b + 1);
    assert(v.drop_last()[a] == w[a]);
    assert(v.last() == w[b]);
    assert forall|k: int| 0 <= k < v.len() implies iv.contains(#[trigger] v[k]) && !pv.contains(v[k]) by {
        assert(v[k] == w[k]);
        assert(lv.contains(w[k]));
    }
    assert forall|k: int| 0 <= k < v.len() - 1 implies deps_of(dv, #[trigger] v[k]).contains(v[k + 1]) by {
        assert(v[k] == w[k] && v[k + 1] == w[k + 1]);
    }
}

/// When every id of `lv` (all unplaced) has a dependency in `lv`, each of
/// them leads to a cycle.
pub(crate) proof fn lemma_live_leads(
    dv: Seq<(Seq<char>, Seq<Seq<char>>)>,
    iv: Seq<Seq<char>>,
    pv: Seq<Seq<char>>,
    lv: Seq<Seq<char>>,
    x: Seq<char>,
)
    requires
        lv.contains(x),
        forall|t: int| 0 <= t < lv.len() ==> has_dep_in(dv, #[trigger] lv[t], lv),
        forall|y: Seq<char>| #[trigger] lv.contains(y) ==> iv.contains(y) && !pv.contains(y),
    ensures
        leads_to_cycle(dv, iv, pv, x),
{
    let w = lemma_live_walk(dv, lv, x, lv.len());
    let (a, b) = lemma_walk_repeats(lv, w);
    lemma_walk_prefix_lasso(dv, iv, pv, lv, w, a, b);
    let v = w.take(b + 1);
    assert(leads_to_cycle(dv, iv, pv, x)) by {
        reveal(leads_to_cycle);
        assert(is_unplaced_lasso(dv, iv, pv, v) && v[0] == x);
    }
}

/// The walk that names a cycle is one id longer at each step, and each
/// walk is the beginning of the longer ones.
proof fn lemma_cycle_walk_prefix(
    dv: Seq<(Seq<char>, Seq<Seq<char>>)>,
    iv: Seq<Seq<char>>,
    pv: Seq<Seq<char>>,
    m: nat,
    n: nat,
)
    requires
        m <= n,
    ensures
        cycle_walk(dv, iv, pv, n).len() == n + 1,
        cycle_walk(dv, iv, pv, m) == cycle_walk(dv, iv, pv, n).take(m as int + 1),
    decreases n,
{
    if n > 0 {
        lemma_cycle_walk_prefix(dv, iv, pv, if m == n { (n - 1) as nat } else { m }, (n - 1) as nat);
        let w = cycle_walk(dv, iv, pv, (n - 1) as nat);
        let v = cycle_walk(dv, iv, pv, n);
        assert(v == w.push(cycle_walk_step(dv, iv, pv, w.last())));
        if m < n {
            assert(v.take(m as int + 1) =~= w.take(m as int + 1));
        } else {
            assert(v.take(m as int + 1) =~= v);
        }
    } else {
        assert(cycle_walk(dv, iv, pv, 0).take(1) =~= cycle_walk(dv, iv, pv, 0));
    }
}

/// With `lv` the ids that lead to a cycle, sorted, the walk starts at its
/// first id.
proof fn lemma_walk_start(
    dv: Seq<(Seq<char>, Seq<Seq<char>>)>,
    iv: Seq<Seq<char>>,
    pv: Seq<Seq<char>>,
    lv: Seq<Seq<char>>,
)
    requires
        lv.len() > 0,
        is_sorted_ids(lv),
        forall|x: Seq<char>| #[trigger] lv.contains(x) <==> on_cycle_path(dv, iv, pv, x),
    ensures
        cycle_walk_start(dv, iv, pv) == lv[0],
{
    reveal(cycle_walk_start);
    let x0 = lv[0];
    assert(lv.contains(x0));
    assert forall|y: Seq<char>| #[trigger] on_cycle_path(dv, iv, pv, y) implies lex_le(x0, y) by {
        assert(lv.contains(y));
        let k = choose|k: int| 0 <= k < lv.len() && lv[k] == y;
        if k > 0 {
            assert(lex_lt(lv[0], lv[k]));
        }
    }
    let c = cycle_walk_start(dv, iv, pv);
    assert(on_cycle_path(dv, iv, pv, c) && forall|y: Seq<char>| #[trigger] on_cycle_path(dv, iv, pv, y) ==> lex_le(c, y));
    assert(lex_le(c, x0) && lex_le(x0, c));
    if c != x0 {
        lemma_lex_asymmetric(c, x0);
    }
}

/// With `lv` the ids that lead to a cycle, the walk goes from `x` to the
/// first dependency of `x` in `lv`.
proof fn lemma_walk_step(
    dv: Seq<(Seq<char>, Seq<Seq<char>>)>,
    iv: Seq<Seq<char>>,
    pv: Seq<Seq<char>>,
    lv: Seq<Seq<char>>,
    x: Seq<char>,
    k: int,
)
    requires
        forall|y: Seq<char>| #[trigger] lv.contains(y) <==> on_cycle_path(dv, iv, pv, y),
        0 <= k < deps_of(dv, x).len(),
        lv.contains(deps_of(dv, x)[k]),
        forall|t: int| 0 <= t < k ==> !lv.contains(#[trigger] deps_of(dv, x)[t]),
    ensures
        cycle_walk_step(dv, iv, pv, x) == deps_of(dv, x)[k],
{
    reveal(cycle_walk_step);
    let ds = deps_of(dv, x);
    assert(on_cycle_path(dv, iv, pv, ds[k]));
    assert forall|t: int| 0 <= t < k implies !on_cycle_path(dv, iv, pv, #[trigger] ds[t]) by {
        assert(!lv.contains(ds[t]));
    }
    let c = choose|c: int| 0 <= c < ds.len() && on_cycle_path(dv, iv, pv, ds[c])
        && forall|t: int| 0 <= t < c ==> !on_cycle_path(dv, iv, pv, #[trigger] ds[t]);
    assert(0 <= c < ds.len() && on_cycle_path(dv, iv, pv, ds[c])
        && forall|t: int| 0 <= t < c ==> !on_cycle_path(dv, iv, pv, #[trigger] ds[t]));
    if c < k {
        assert(!lv.contains(ds[c]));
    } else if c > k {
        assert(!on_cycle_path(dv, iv, pv, ds[k]));
    }
}

/// When the walk so far has no id twice and its next id is its `p`-th,
/// the text of the cycle it names runs from there.
proof fn lemma_walk_closes(
    dv: Seq<(Seq<char>, Seq<Seq<char>>)>,
    iv: Seq<Seq<char>>,
    pv: Seq<Seq<char>>,
    path: Seq<Seq<char>>,
    p: int,
    next: Seq<char>,
)
    requires
        path.len() > 0,
        path == cycle_walk(dv, iv, pv, (path.len() - 1) as nat),
        path.no_duplicates(),
        next == cycle_walk_step(dv, iv, pv, path.last()),
        0 <= p < path.len(),
        path[p] == next,
    ensures
        walked_cycle_text(dv, iv, pv) == arrow_join(path.subrange(p, path.len() as int).push(next)),
{
    reveal(walked_cycle_text);
    let n = path.len() as nat;
    let w = cycle_walk(dv, iv, pv, n);
    assert(w == path.push(next));
    assert(w.drop_last() =~= path);
    assert(w.drop_last().contains(w.last())) by {
        assert(path[p] == next);
    }
    assert forall|m: nat| m < n implies !#[trigger] cycle_walk(dv, iv, pv, m).drop_last().contains(cycle_walk(dv, iv, pv, m).last()) by {
        lemma_cycle_walk_prefix(dv, iv, pv, m, (n - 1) as nat);
        let v = cycle_walk(dv, iv, pv, m);
        assert(v =~= path.take(m as int + 1));
        if v.drop_last().contains(v.last()) {
            let i = choose|i: int| 0 <= i < v.drop_last().len() && v.drop_last()[i] == v.last();
            assert(path[i] == path[m as int]);
        }
    }
    assert(walk_closes_at(dv, iv, pv, n));
    let n2 = choose|n2: nat| walk_closes_at(dv, iv, pv, n2);
    assert(walk_closes_at(dv, iv, pv, n2));
    if n2 < n {
        assert(!cycle_walk(dv, iv, pv, n2).drop_last().contains(cycle_walk(dv, iv, pv, n2).last()));
    } else if n2 > n {
        assert(!cycle_walk(dv, iv, pv, n).drop_last().contains(cycle_walk(dv, iv, pv, n).last()));
    }
    assert(n2 == n);
    let p2 = choose|p2: int| 0 <= p2 < w.len() - 1 && w[p2] == w.last();
    assert(0 <= p2 < w.len() - 1 && w[p2] == w.last()) by {
        assert(w[p] == w.last());
    }
    assert(path[p2] == path[p]);
    assert(p2 == p);
    assert(w.subrange(p, w.len() as int) =~= path.subrange(p, path.len() as int).push(next));
}

/// Some dependency of `x` is in `live`.
pub open spec fn has_dep_in(deps: Seq<(Seq<char>, Seq<Seq<char>>)>, x: Seq<char>, live: Seq<Seq<char>>) -> bool {
    exists|k: int| 0 <= k < deps_of(deps, x).len() && live.contains(#[trigger] deps_of(deps, x)[k])
}

/// The first dependency of `x` (in declaration order) that is in `live`.
fn first_dep_in(deps: &[(String, Vec<String>)], x: &str, live: &Vec<String>) -> (r: Option<String>)
    ensures
        match r {
            Some(d) => deps_of(deps.deep_view(), x@).contains(d@) && live.deep_view().contains(d@)
                && exists|k: int| 0 <= k < deps_of(deps.deep_view(), x@).len() && deps_of(deps.deep_view(), x@)[k] == d@
                    && forall|t: int| 0 <= t < k ==> !live.deep_view().contains(#[trigger] deps_of(deps.deep_view(), x@)[t]),
            None => !has_dep_in(deps.deep_view(), x@, live.deep_view()),
        },
{
    let ghost dv = deps.deep_view();
    match find_dep_entry(deps, x) {
        None => {
            proof { assert(deps_of(dv, x@).len() == 0); }
            None
        },
        Some(e) => {
            let list = &deps[e].1;
            assert(deps_of(dv, x@) == list.deep_view());
            let mut k: usize = 0;
            while k < list.len()
                invariant
                    dv == deps.deep_view(),
                    deps_of(dv, x@) == list.deep_view(),
                    k <= list@.len(),
                    forall|t: int| 0 <= t < k ==> !live.deep_view().contains(#[trigger] list.deep_view()[t]),
                decreases list@.len() - k,
            {
                if contains_str(live, list[k].as_str()) {
                    assert(list.deep_view()[k as int] == list@[k as int]@);
                    let d = list[k].clone();
                    assert(d@ == deps_of(dv, x@)[k as int]);
                    return Some(d);
                }
                k = k + 1;
            }
            None
        },
    }
}

/// Describe a dependency cycle among the ids that `placed` does not hold.
///
/// First sets aside, again and again, every unplaced id none of whose
/// dependencies is still among the remaining ones: such an id lies on no
/// cycle. When ids remain, each has a remaining dependency; starting from
/// the first remaining id (in alphabetical order) and following at each
/// step the first remaining dependency (in declaration order), the walk
/// comes back to an id it has met, and the cycle from there is reported as
/// `a → b → a`. When no id remains there is no cycle, and the text is
/// `"unknown cycle"`.
/// The unplaced ids, in alphabetical order, after setting aside, again and
/// again, every one none of whose dependencies is still among them: such
/// an id lies on no cycle and leads to none.
fn prune_to_cycles(ids: &[String], deps: &[(String, Vec<String>)], placed: &Vec<String>) -> (live: Vec<String>)
    ensures
        forall|y: Seq<char>| #[trigger] live.deep_view().contains(y) ==> ids.deep_view().contains(y) && !placed.deep_view().contains(y),
        forall|c: Seq<Seq<char>>, k: int| is_unplaced_cycle(deps.deep_view(), ids.deep_view(), placed.deep_view(), c) && 0 <= k < c.len()
            ==> live.deep_view().contains(#[trigger] c[k]),
        forall|w: Seq<Seq<char>>, k: int| is_unplaced_lasso(deps.deep_view(), ids.deep_view(), placed.deep_view(), w) && 0 <= k < w.len()
            ==> live.deep_view().contains(#[trigger] w[k]),
        is_sorted_ids(live.deep_view()),
        forall|t: int| 0 <= t < live.deep_view().len() ==> has_dep_in(deps.deep_view(), #[trigger] live.deep_view()[t], live.deep_view()),
{
    let ghost dv = deps.deep_view();
    let ghost iv = ids.deep_view();
    let ghost pv = placed.deep_view();
    let mut live = unplaced_sorted(ids, placed);
    let ghost rv = live.deep_view();
    // Set aside ids with no remaining dependency.
    let mut changed = true;
    while changed
        invariant
            dv == deps.deep_view(),
            iv == ids.deep_view(),
            pv == placed.deep_view(),
            forall|x: Seq<char>| rv.contains(x) <==> (iv.contains(x) && !pv.contains(x)),
            forall|y: Seq<char>| live.deep_view().contains(y) ==> rv.contains(y),
            forall|c: Seq<Seq<char>>, k: int| is_unplaced_cycle(dv, iv, pv, c) && 0 <= k < c.len()
                ==> live.deep_view().contains(#[trigger] c[k]),
            forall|w: Seq<Seq<char>>, k: int| is_unplaced_lasso(dv, iv, pv, w) && 0 <= k < w.len()
                ==> live.deep_view().contains(#[trigger] w[k]),
            is_sorted_ids(live.deep_view()),
            !changed ==> forall|t: int| 0 <= t < live.deep_view().len() ==> has_dep_in(dv, #[trigger] live.deep_view()[t], live.deep_view()),
        decreases live@.len() + if changed { 1int } else { 0int },
    {
        changed = false;
        let mut t: usize = 0;
        let mut stuck = false;
        while t < live.len() && !stuck
            invariant
                dv == deps.deep_view(),
                !changed,
                t <= live@.len(),
                stuck ==> t < live@.len() && !has_dep_in(dv, live.deep_view()[t as int], live.deep_view()),
                forall|j: int| 0 <= j < t ==> has_dep_in(dv, #[trigger] live.deep_view()[j], live.deep_view()),
            decreases live@.len() - t + if stuck { 0int } else { 1int },
        {
            assert(live@[t as int]@ == live.deep_view()[t as int]);
            if first_dep_in(deps, live[t].as_str(), &live).is_none() {
                stuck = true;
            } else {
                t = t + 1;
            }
        }
        if stuck {
            let ghost lv = live.deep_view();
            let ghost x = lv[t as int];
            assert(live@[t as int]@ == x);
            assert(!has_dep_in(dv, x, lv));
            live.remove(t);
            proof {
                let nv = live.deep_view();
                assert(nv =~= lv.remove(t as int));
                assert forall|y: Seq<char>| nv.contains(y) implies rv.contains(y) by {
                    let j = choose|j: int| 0 <= j < nv.len() && nv[j] == y;
                    if j < t { assert(lv[j] == y); } else { assert(lv[j + 1] == y); }
                }
                assert forall|c: Seq<Seq<char>>, k: int| is_unplaced_cycle(dv, iv, pv, c) && 0 <= k < c.len()
                    implies nv.contains(#[trigger] c[k]) by {
                    lemma_cycle_node_kept(dv, iv, pv, c, k, lv, x, t as int);
                }
                assert forall|w: Seq<Seq<char>>, k: int| is_unplaced_lasso(dv, iv, pv, w) && 0 <= k < w.len()
                    implies nv.contains(#[trigger] w[k]) by {
                    assert forall|m: int| 0 <= m < w.len() implies lv.contains(#[trigger] w[m]) by {}
                    lemma_lasso_node_kept(dv, iv, pv, w, k, lv, x, t as int);
                }
                assert forall|a: int, b: int| 0 <= a < b < nv.len() implies lex_lt(#[trigger] nv[a], #[trigger] nv[b]) by {
                    if b < t {
                        assert(nv[a] == lv[a] && nv[b] == lv[b]);
                    } else if a < t {
                        assert(nv[a] == lv[a] && nv[b] == lv[b + 1]);
                    } else {
                        assert(nv[a] == lv[a + 1] && nv[b] == lv[b + 1]);
                    }
                }
            }
            changed = true;
        }
    }
    proof {
        assert forall|y: Seq<char>| #[trigger] live.deep_view().contains(y) implies iv.contains(y) && !pv.contains(y) by {
            assert(rv.contains(y));
        }
    }
    live
}

/// Walks from the first of `live` along the first dependency in `live`
/// until an id comes back, and names the cycle from there as `a → b → a`.
fn walk_to_cycle(ids: &[String], deps: &[(String, Vec<String>)], placed: &Vec<String>, live: &Vec<String>) -> (r: String)
    requires
        live@.len() > 0,
        forall|y: Seq<char>| #[trigger] live.deep_view().contains(y) ==> ids.deep_view().contains(y) && !placed.deep_view().contains(y),
        forall|t: int| 0 <= t < live.deep_view().len() ==> has_dep_in(deps.deep_view(), #[trigger] live.deep_view()[t], live.deep_view()),
        forall|y: Seq<char>| #[trigger] live.deep_view().contains(y) <==> on_cycle_path(deps.deep_view(), ids.deep_view(), placed.deep_view(), y),
        cycle_walk_start(deps.deep_view(), ids.deep_view(), placed.deep_view()) == live.deep_view()[0],
    ensures
        exists|c: Seq<Seq<char>>| #[trigger] is_unplaced_cycle(deps.deep_view(), ids.deep_view(), placed.deep_view(), c)
            && r@ == arrow_join(c),
        r@ == walked_cycle_text(deps.deep_view(), ids.deep_view(), placed.deep_view()),
{
    let ghost dv = deps.deep_view();
    let ghost iv = ids.deep_view();
    let ghost pv = placed.deep_view();
    let ghost lv = live.deep_view();
    let ghost rv = lv;
    let mut path: Vec<String> = Vec::new();
    path.push(live[0].clone());
    assert(lv[0] == live@[0]@);
    assert(path.deep_view() =~= cycle_walk(dv, iv, pv, 0));
    loop
        invariant
            dv == deps.deep_view(),
            iv == ids.deep_view(),
            pv == placed.deep_view(),
            lv == live.deep_view(),
            forall|x: Seq<char>| #[trigger] rv.contains(x) ==> (iv.contains(x) && !pv.contains(x)),
            forall|y: Seq<char>| lv.contains(y) ==> rv.contains(y),
            forall|t: int| 0 <= t < lv.len() ==> has_dep_in(dv, #[trigger] lv[t], lv),
            path@.len() > 0,
            path.deep_view().no_duplicates(),
            forall|k: int| 0 <= k < path.deep_view().len() ==> lv.contains(#[trigger] path.deep_view()[k]),
            forall|k: int| 0 <= k < path.deep_view().len() - 1 ==> deps_of(dv, #[trigger] path.deep_view()[k]).contains(path.deep_view()[k + 1]),
            forall|y: Seq<char>| #[trigger] lv.contains(y) <==> on_cycle_path(dv, iv, pv, y),
            path.deep_view() == cycle_walk(dv, iv, pv, (path.deep_view().len() - 1) as nat),
        decreases lv.len() - path@.len(),
    {
        let ghost pvw = path.deep_view();
        proof { lemma_distinct_subseq_len(pvw, lv); }
        let top = path.len() - 1;
        assert(pvw.last() == pvw[top as int]);
        assert(lv.contains(pvw.last()));
        let next = match first_dep_in(deps, path[top].as_str(), &live) {
            Some(d) => d,
            None => {
                proof {
                    let j = choose|j: int| 0 <= j < lv.len() && lv[j] == pvw.last();
                    assert(has_dep_in(dv, lv[j], lv));
                }
                return "unknown cycle".to_owned();
            },
        };
        proof {
            let x = pvw.last();
            assert(path@[top as int]@ == x);
            let k = choose|k: int| 0 <= k < deps_of(dv, x).len() && deps_of(dv, x)[k] == next@
                && forall|t: int| 0 <= t < k ==> !lv.contains(#[trigger] deps_of(dv, x)[t]);
            lemma_walk_step(dv, iv, pv, lv, x, k);
        }
        match position_of(&path, next.as_str()) {
            Some(p) => {
                let text = join_cycle(&path, p, next.as_str());
                proof {
                    lemma_walk_closes(dv, iv, pv, pvw, p as int, next@);
                    assert(exists|x: Seq<char>| on_cycle_path(dv, iv, pv, x)) by {
                        assert(lv.contains(lv[0]));
                    }
                    assert forall|x: Seq<char>| #[trigger] lv.contains(x) implies (iv.contains(x) && !pv.contains(x)) by {
                        assert(rv.contains(x));
                    }
                    lemma_cycle_from_path(dv, iv, pv, lv, pvw, p as int, next@);
                    let c = pvw.subrange(p as int, pvw.len() as int).push(next@);
                    assert(is_unplaced_cycle(dv, iv, pv, c));
                }
                return text;
            },
            None => {
                path.push(next);
                proof {
                    let nw = path.deep_view();
                    assert(nw =~= pvw.push(next@));
                    assert(nw == cycle_walk(dv, iv, pv, (nw.len() - 1) as nat));
                    lemma_walk_extend(dv, lv, pvw, next@);
                    assert forall|a: int, b: int| 0 <= a < b < nw.len() implies nw[a] != nw[b] by {
                        if b == nw.len() - 1 {
                            assert(nw[a] == pvw[a]);
                        } else {
                            assert(nw[a] == pvw[a] && nw[b] == pvw[b]);
                        }
                    }
                }
            },
        }
    }
}

pub fn describe_cycle(ids: &[String], deps: &[(String, Vec<String>)], placed: &Vec<String>) -> (r: String)
    ensures
        (exists|c: Seq<Seq<char>>| is_unplaced_cycle(deps.deep_view(), ids.deep_view(), placed.deep_view(), c))
            ==> exists|c: Seq<Seq<char>>| #[trigger] is_unplaced_cycle(deps.deep_view(), ids.deep_view(), placed.deep_view(), c)
                && r@ == arrow_join(c),
        !(exists|c: Seq<Seq<char>>| is_unplaced_cycle(deps.deep_view(), ids.deep_view(), placed.deep_view(), c))
            ==> r@ == "unknown cycle"@,
        (exists|x: Seq<char>| on_cycle_path(deps.deep_view(), ids.deep_view(), placed.deep_view(), x))
            ==> r@ == walked_cycle_text(deps.deep_view(), ids.deep_view(), placed.deep_view()),
        !(exists|x: Seq<char>| on_cycle_path(deps.deep_view(), ids.deep_view(), placed.deep_view(), x))
            ==> r@ == "unknown cycle"@,
{
    let ghost dv = deps.deep_view();
    let ghost iv = ids.deep_view();
    let ghost pv = placed.deep_view();
    let live = prune_to_cycles(ids, deps, placed);
    let ghost lv = live.deep_view();
    if live.len() == 0 {
        proof {
            if exists|c: Seq<Seq<char>>| is_unplaced_cycle(dv, iv, pv, c) {
                let c = choose|c: Seq<Seq<char>>| is_unplaced_cycle(dv, iv, pv, c);
                assert(lv.contains(c[0]));
            }
            reveal(leads_to_cycle);
            if exists|x: Seq<char>| on_cycle_path(dv, iv, pv, x) {
                let x = choose|x: Seq<char>| on_cycle_path(dv, iv, pv, x);
                let w = choose|w: Seq<Seq<char>>| #[trigger] is_unplaced_lasso(dv, iv, pv, w) && w[0] == x;
                assert(lv.contains(w[0]));
            }
        }
        return "unknown cycle".to_owned();
    }
    proof {
        assert(lv.no_duplicates()) by {
            assert forall|a: int, b: int| 0 <= a < lv.len() && 0 <= b < lv.len() && a != b implies lv[a] != lv[b] by {
                if a < b {
                    assert(lex_lt(lv[a], lv[b]));
                    lemma_lex_irreflexive(lv[a]);
                } else {
                    assert(lex_lt(lv[b], lv[a]));
                    lemma_lex_irreflexive(lv[b]);
                }
            }
        }
        assert forall|y: Seq<char>| #[trigger] lv.contains(y) <==> on_cycle_path(dv, iv, pv, y) by {
            if lv.contains(y) {
                lemma_live_leads(dv, iv, pv, lv, y);
            }
            if on_cycle_path(dv, iv, pv, y) {
                reveal(leads_to_cycle);
                let w = choose|w: Seq<Seq<char>>| #[trigger] is_unplaced_lasso(dv, iv, pv, w) && w[0] == y;
                assert(lv.contains(w[0]));
            }
        }
        lemma_walk_start(dv, iv, pv, lv);
    }
    let text = walk_to_cycle(ids, deps, placed, &live);
    proof {
        assert(lv.contains(lv[0]));
        assert(on_cycle_path(dv, iv, pv, lv[0]));
    }
    text
}

/// An id on a cycle of unplaced ids that all remain is not one without a
/// remaining dependency, so setting such an id aside keeps the cycle.
proof fn lemma_cycle_node_kept(
    dv: Seq<(Seq<char>, Seq<Seq<char>>)>,
    iv: Seq<Seq<char>>,
    pv: Seq<Seq<char>>,
    c: Seq<Seq<char>>,
    k: int,
    lv: Seq<Seq<char>>,
    x: Seq<char>,
    t: int,
)
    requires
        is_unplaced_cycle(dv, iv, pv, c),
        0 <= k < c.len(),
        0 <= t < lv.len(),
        lv[t] == x,
        !has_dep_in(dv, x, lv),
        forall|m: int| 0 <= m < c.len() ==> lv.contains(#[trigger] c[m]),
    ensures
        lv.remove(t).contains(c[k]),
{
    // Every id of the cycle has its successor on the cycle as a remaining dependency.
    assert forall|m: int| 0 <= m < c.len() implies c[m] != x by {
        let m2 = if m == c.len() - 1 { 0 } else { m };
        assert(c[m2] == c[m]);
        assert(deps_of(dv, c[m2]).contains(c[m2 + 1]));
        let j = choose|j: int| 0 <= j < deps_of(dv, c[m2]).len() && deps_of(dv, c[m2])[j] == c[m2 + 1];
        assert(lv.contains(c[m2 + 1]));
        if c[m] == x {
            assert(lv.contains(deps_of(dv, x)[j]));
        }
    }
    let y = c[k];
    let j = choose|j: int| 0 <= j < lv.len() && lv[j] == y;
    assert(y != x);
    assert(j != t);
    if j < t {
        assert(lv.remove(t)[j] == y);
    } else {
        assert(lv.remove(t)[j - 1] == y);
    }
}

} // verus!
