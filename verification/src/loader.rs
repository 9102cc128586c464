//! Extension loading decisions: which manifests are compatible with the
//! engine, in which order extensions load, and what their libraries are
//! called.
use vstd::prelude::*;
use crate::ext_api::context::ENGINE_API_VERSION;
use crate::ext_api::manifest::ExtensionManifest;
use crate::registry::dependency::{contains_str, dep_entry_index, deps_of, has_dep_in, is_dependency_cycle, is_unplaced_lasso,
    leads_to_cycle, lemma_distinct_subseq_len, lemma_lasso_cycle, lemma_live_leads, lemma_unplaced_seq};
use crate::text::{concat2, copy_str, decimal, lex_lt, lemma_lex_asymmetric, lemma_lex_irreflexive, lemma_lex_total,
    str_eq, str_lt, u64_to_decimal};

verus! {

/// An extension that was loaded.
#[derive(Debug)]
pub struct LoadedExtension {
    pub name: String,
    pub version: String,
    pub manifest: ExtensionManifest,
}

/// An extension that could not be loaded, and why.
#[derive(Debug, Clone)]
pub struct ExtensionLoadError {
    /// The extension's name (or its directory's, when the manifest did not parse).
    pub name: String,
    pub reason: String,
}

impl ExtensionLoadError {
    /// `extension '{name}' failed: {reason}`.
    pub fn message(&self) -> (m: String)
        ensures
            m@ == "extension '"@ + self.name@ + "' failed: "@ + self.reason@,
    {
        let mut m = concat2("extension '", &self.name);
        m.append("' failed: ");
        m.append(&self.reason);
        m
    }
}

/// The reason given for an extension built for another API version.
pub open spec fn api_mismatch_reason(v: u32) -> Seq<char> {
    "incompatible API version: extension declares "@ + decimal(v as nat) + ", engine requires "@
        + decimal(ENGINE_API_VERSION as nat)
}

/// The entries of `ms` built for this engine's API version, in order.
pub open spec fn compatible_of(ms: Seq<(String, ExtensionManifest)>) -> Seq<(String, ExtensionManifest)>
    decreases ms.len(),
{
    if ms.len() == 0 {
        Seq::empty()
    } else if ms.last().1.api_version == ENGINE_API_VERSION {
        compatible_of(ms.drop_last()).push(ms.last())
    } else {
        compatible_of(ms.drop_last())
    }
}

/// The manifests of `ms` built for another API version, in order.
pub open spec fn incompatible_of(ms: Seq<(String, ExtensionManifest)>) -> Seq<ExtensionManifest>
    decreases ms.len(),
{
    if ms.len() == 0 {
        Seq::empty()
    } else if ms.last().1.api_version != ENGINE_API_VERSION {
        incompatible_of(ms.drop_last()).push(ms.last().1)
    } else {
        incompatible_of(ms.drop_last())
    }
}

/// Filtering by API version loses no manifest and invents none: the
/// compatible and the incompatible ones together are as many as the input,
/// and each manifest is on exactly one side according to its API version.
pub proof fn lemma_api_split_complete(ms: Seq<(String, ExtensionManifest)>)
    ensures
        compatible_of(ms).len() + incompatible_of(ms).len() == ms.len(),
        forall|e: (String, ExtensionManifest)| #[trigger] compatible_of(ms).contains(e)
            ==> ms.contains(e) && e.1.api_version == ENGINE_API_VERSION,
        forall|i: int| 0 <= i < ms.len() && ms[i].1.api_version == ENGINE_API_VERSION
            ==> #[trigger] compatible_of(ms).contains(ms[i]),
    decreases ms.len(),
{
    if ms.len() > 0 {
        let rest = ms.drop_last();
        lemma_api_split_complete(rest);
        let c = compatible_of(ms);
        let cr = compatible_of(rest);
        assert forall|e: (String, ExtensionManifest)| #[trigger] c.contains(e)
            implies ms.contains(e) && e.1.api_version == ENGINE_API_VERSION by {
            if cr.contains(e) {
                let j = choose|j: int| 0 <= j < rest.len() && rest[j] == e;
                assert(ms[j] == e);
            } else {
                assert(e == ms.last());
                assert(ms[ms.len() - 1] == e);
            }
        }
        assert forall|i: int| 0 <= i < ms.len() && ms[i].1.api_version == ENGINE_API_VERSION
            implies #[trigger] c.contains(ms[i]) by {
            if i < ms.len() - 1 {
                assert(rest[i] == ms[i]);
                assert(cr.contains(rest[i]));
                let j = choose|j: int| 0 <= j < cr.len() && cr[j] == rest[i];
                assert(c[j] == ms[i]);
            } else {
                assert(c[c.len() - 1] == ms[i]);
            }
        }
    }
}

/// Splits manifests into those built for this engine's API version, in
/// order, and an error for each of the others, in order.
pub fn filter_api_version(manifests: Vec<(String, ExtensionManifest)>) -> (r: (Vec<(String, ExtensionManifest)>, Vec<ExtensionLoadError>))
    ensures
        r.0@ == compatible_of(manifests@),
        r.1@.len() == incompatible_of(manifests@).len(),
        forall|i: int| 0 <= i < r.1@.len() ==> {
            let m = #[trigger] incompatible_of(manifests@)[i];
            &&& r.1@[i].name@ == m.name@
            &&& r.1@[i].reason@ == api_mismatch_reason(m.api_version)
        },
{
    let ghost all = manifests@;
    let n = manifests.len();
    assert(all.len() == n);
    let mut compatible: Vec<(String, ExtensionManifest)> = Vec::new();
    let mut errors: Vec<ExtensionLoadError> = Vec::new();
    let mut rest = manifests;
    let mut i: usize = 0;
    while rest.len() > 0
        invariant
            rest@.len() + i == all.len(),
            all.len() <= usize::MAX,
            rest@ == all.skip(i as int),
            compatible@ == compatible_of(all.take(i as int)),
            errors@.len() == incompatible_of(all.take(i as int)).len(),
            forall|k: int| 0 <= k < errors@.len() ==> {
                let m = #[trigger] incompatible_of(all.take(i as int))[k];
                &&& errors@[k].name@ == m.name@
                &&& errors@[k].reason@ == api_mismatch_reason(m.api_version)
            },
        decreases rest@.len(),
    {
        let item = rest.remove(0);
        assert(rest@ == all.skip(i + 1));
        proof {
            assert(item == all[i as int]);
            assert(all.take(i + 1).drop_last() == all.take(i as int));
            assert(all.take(i + 1).last() == all[i as int]);
        }
        if item.1.api_version == ENGINE_API_VERSION {
            compatible.push(item);
        } else {
            let mut reason = concat2("incompatible API version: extension declares ", &u64_to_decimal(item.1.api_version as u64));
            reason.append(", engine requires ");
            reason.append(&u64_to_decimal(ENGINE_API_VERSION as u64));
            errors.push(ExtensionLoadError { name: copy_str(&item.1.name), reason });
        }
        i = i + 1;
    }
    assert(all.take(all.len() as int) == all);
    (compatible, errors)
}

/// The datatypes every extension may depend on without declaring them.
pub open spec fn is_builtin_name(d: Seq<char>) -> bool {
    d == "identity"@ || d == "room"@ || d == "timeline"@ || d == "message"@
}

/// The name and declared dependencies of each manifest.
pub open spec fn manifest_graph(ms: Seq<(String, ExtensionManifest)>) -> Seq<(Seq<char>, Seq<Seq<char>>)> {
    ms.map_values(|e: (String, ExtensionManifest)| (e.1.name@, e.1.ext_dependencies.deep_view()))
}

/// The names of the entries of `g`, in order, each as often as it occurs.
pub open spec fn entry_names(g: Seq<(Seq<char>, Seq<Seq<char>>)>) -> Seq<Seq<char>> {
    g.map_values(|e: (Seq<char>, Seq<Seq<char>>)| e.0)
}

/// The dependencies in `deps` that are neither built in nor among `names`,
/// each paired with `name`, in order.
pub open spec fn missing_of(name: Seq<char>, deps: Seq<Seq<char>>, names: Seq<Seq<char>>) -> Seq<(Seq<char>, Seq<char>)>
    decreases deps.len(),
{
    if deps.len() == 0 {
        Seq::empty()
    } else {
        let d = deps.last();
        let rest = missing_of(name, deps.drop_last(), names);
        if !is_builtin_name(d) && !names.contains(d) { rest.push((name, d)) } else { rest }
    }
}

/// Every (extension, dependency) pair of `g` whose dependency is neither
/// built in nor one of the extensions `names`, in manifest order.
pub open spec fn missing_deps(g: Seq<(Seq<char>, Seq<Seq<char>>)>, names: Seq<Seq<char>>) -> Seq<(Seq<char>, Seq<char>)>
    decreases g.len(),
{
    if g.len() == 0 {
        Seq::empty()
    } else {
        missing_deps(g.drop_last(), names) + missing_of(g.last().0, g.last().1, names)
    }
}

/// The missing pairs of one extension are exactly its dependencies that are
/// neither built in nor among `names`.
proof fn lemma_missing_of_contains(name: Seq<char>, deps: Seq<Seq<char>>, names: Seq<Seq<char>>, p: (Seq<char>, Seq<char>))
    ensures
        missing_of(name, deps, names).contains(p)
            <==> (p.0 == name && deps.contains(p.1) && !is_builtin_name(p.1) && !names.contains(p.1)),
    decreases deps.len(),
{
    if deps.len() > 0 {
        let rest = deps.drop_last();
        let d = deps.last();
        lemma_missing_of_contains(name, rest, names, p);
        let mr = missing_of(name, rest, names);
        let m = missing_of(name, deps, names);
        if deps.contains(p.1) && !rest.contains(p.1) {
            let j = choose|j: int| 0 <= j < deps.len() && deps[j] == p.1;
            if j < deps.len() - 1 { assert(rest[j] == p.1); }
        }
        if rest.contains(p.1) {
            let j = choose|j: int| 0 <= j < rest.len() && rest[j] == p.1;
            assert(deps[j] == p.1);
        }
        if !is_builtin_name(d) && !names.contains(d) {
            assert(m == mr.push((name, d)));
            if m.contains(p) && !mr.contains(p) {
                let j = choose|j: int| 0 <= j < m.len() && m[j] == p;
                if j < mr.len() { assert(mr[j] == p); }
            }
            if mr.contains(p) {
                let j = choose|j: int| 0 <= j < mr.len() && mr[j] == p;
                assert(m[j] == p);
            }
            if p == (name, d) {
                assert(m[m.len() - 1] == p);
            }
        }
    }
}

/// One missing-dependency error stands for each pair of an extension and
/// a dependency of it that is neither built in nor one of `names`, and for
/// no other pair.
pub proof fn lemma_missing_deps_exact(g: Seq<(Seq<char>, Seq<Seq<char>>)>, names: Seq<Seq<char>>, p: (Seq<char>, Seq<char>))
    ensures
        missing_deps(g, names).contains(p) <==> exists|j: int| 0 <= j < g.len() && (#[trigger] g[j]).0 == p.0
            && g[j].1.contains(p.1) && !is_builtin_name(p.1) && !names.contains(p.1),
    decreases g.len(),
{
    if g.len() > 0 {
        let rest = g.drop_last();
        let last = g.last();
        lemma_missing_deps_exact(rest, names, p);
        lemma_missing_of_contains(last.0, last.1, names, p);
        let a = missing_deps(rest, names);
        let b = missing_of(last.0, last.1, names);
        let m = missing_deps(g, names);
        assert(m == a + b);
        if m.contains(p) {
            let j = choose|j: int| 0 <= j < m.len() && m[j] == p;
            if j < a.len() {
                assert(a[j] == p);
                let k = choose|k: int| 0 <= k < rest.len() && (#[trigger] rest[k]).0 == p.0
                    && rest[k].1.contains(p.1) && !is_builtin_name(p.1) && !names.contains(p.1);
                assert(g[k] == rest[k]);
            } else {
                assert(b[j - a.len()] == p);
                assert(g[g.len() - 1] == last);
            }
        }
        if exists|j: int| 0 <= j < g.len() && (#[trigger] g[j]).0 == p.0
            && g[j].1.contains(p.1) && !is_builtin_name(p.1) && !names.contains(p.1) {
            let j = choose|j: int| 0 <= j < g.len() && (#[trigger] g[j]).0 == p.0
                && g[j].1.contains(p.1) && !is_builtin_name(p.1) && !names.contains(p.1);
            if j < g.len() - 1 {
                assert(rest[j] == g[j]);
                let k = choose|k: int| 0 <= k < a.len() && a[k] == p;
                assert(m[k] == p);
            } else {
                let k = choose|k: int| 0 <= k < b.len() && b[k] == p;
                assert(m[a.len() + k] == p);
            }
        }
    }
}

/// The dependencies in `deps` that are not built in, in order.
pub open spec fn non_builtin(deps: Seq<Seq<char>>) -> Seq<Seq<char>>
    decreases deps.len(),
{
    if deps.len() == 0 {
        Seq::empty()
    } else {
        let rest = non_builtin(deps.drop_last());
        if is_builtin_name(deps.last()) { rest } else { rest.push(deps.last()) }
    }
}

/// The dependencies of extension `x` on other extensions: those of every
/// manifest named `x`, built-in datatypes left out.
pub open spec fn ext_deps(g: Seq<(Seq<char>, Seq<Seq<char>>)>, x: Seq<char>) -> Seq<Seq<char>>
    decreases g.len(),
{
    if g.len() == 0 {
        Seq::empty()
    } else {
        let rest = ext_deps(g.drop_last(), x);
        if g.last().0 == x { rest + non_builtin(g.last().1) } else { rest }
    }
}

/// `x` may load after `placed`: it is an extension, not yet placed, and all
/// of its dependencies are placed.
pub open spec fn ext_ready(g: Seq<(Seq<char>, Seq<Seq<char>>)>, placed: Seq<Seq<char>>, x: Seq<char>) -> bool {
    &&& entry_names(g).contains(x)
    &&& !placed.contains(x)
    &&& forall|k: int| 0 <= k < ext_deps(g, x).len() ==> placed.contains(#[trigger] ext_deps(g, x)[k])
}

/// The position of `d` in `o`.
pub open spec fn pos_in(o: Seq<Seq<char>>, d: Seq<char>) -> int {
    choose|i: int| 0 <= i < o.len() && o[i] == d
}

/// The last position in `o` of any of `deps`; -1 for no dependencies.
pub open spec fn last_dep_pos(o: Seq<Seq<char>>, deps: Seq<Seq<char>>) -> int
    decreases deps.len(),
{
    if deps.len() == 0 {
        -1
    } else {
        let p = pos_in(o, deps.last());
        let q = last_dep_pos(o, deps.drop_last());
        if p > q { p } else { q }
    }
}

/// When `x` became ready in the load order `o`: the position of its last
/// loaded dependency, -1 when it has none.
pub open spec fn ready_at(g: Seq<(Seq<char>, Seq<Seq<char>>)>, o: Seq<Seq<char>>, x: Seq<char>) -> int {
    last_dep_pos(o, ext_deps(g, x))
}

/// `a` loads before `b` in `o`: it became ready earlier, or at the same
/// time with a smaller name.
pub open spec fn loads_before(g: Seq<(Seq<char>, Seq<Seq<char>>)>, o: Seq<Seq<char>>, a: Seq<char>, b: Seq<char>) -> bool {
    ||| ready_at(g, o, a) < ready_at(g, o, b)
    ||| (ready_at(g, o, a) == ready_at(g, o, b) && lex_lt(a, b))
}

/// `o` is the order in which the extensions of `g` load: each extension
/// once, after its dependencies, ordered by when it became ready and then
/// by name; every extension left out has a dependency left out.
pub open spec fn is_extension_order(g: Seq<(Seq<char>, Seq<Seq<char>>)>, o: Seq<Seq<char>>) -> bool {
    &&& o.no_duplicates()
    &&& forall|i: int| 0 <= i < o.len() ==> entry_names(g).contains(#[trigger] o[i])
    &&& forall|i: int| 0 <= i < o.len() ==> ext_ready(g, o.take(i), #[trigger] o[i])
    &&& forall|i: int, j: int| 0 <= i < j < o.len() ==> loads_before(g, o, #[trigger] o[i], #[trigger] o[j])
    &&& forall|x: Seq<char>| entry_names(g).contains(x) && !o.contains(x) ==> !ext_ready(g, o, x)
}

/// `c` is a dependency cycle among the extensions of `g`: it starts and
/// ends at the same extension, and each depends on the next.
pub open spec fn is_extension_cycle(g: Seq<(Seq<char>, Seq<Seq<char>>)>, c: Seq<Seq<char>>) -> bool {
    &&& c.len() >= 2
    &&& c[0] == c.last()
    &&& forall|k: int| 0 <= k < c.len() ==> entry_names(g).contains(#[trigger] c[k])
    &&& forall|k: int| 0 <= k < c.len() - 1 ==> ext_deps(g, #[trigger] c[k]).contains(c[k + 1])
}

/// A dependency that is not built in is one of the listed dependencies.
proof fn lemma_non_builtin_contains(deps: Seq<Seq<char>>, d: Seq<char>)
    ensures
        non_builtin(deps).contains(d) ==> deps.contains(d) && !is_builtin_name(d),
    decreases deps.len(),
{
    if deps.len() > 0 {
        let rest = deps.drop_last();
        lemma_non_builtin_contains(rest, d);
        let nb = non_builtin(deps);
        if nb.contains(d) {
            let k = choose|k: int| 0 <= k < nb.len() && nb[k] == d;
            if !is_builtin_name(deps.last()) && k == nb.len() - 1 {
                assert(deps[deps.len() - 1] == d);
            } else {
                assert(non_builtin(rest)[k] == d);
                let i = choose|i: int| 0 <= i < rest.len() && rest[i] == d;
                assert(deps[i] == d);
            }
        }
    }
}

/// With no missing dependency, every dependency of an extension on another
/// is one of the extensions.
proof fn lemma_ext_dep_named(g: Seq<(Seq<char>, Seq<Seq<char>>)>, x: Seq<char>, d: Seq<char>)
    requires
        missing_deps(g, entry_names(g)).len() == 0,
        ext_deps(g, x).contains(d),
    ensures
        entry_names(g).contains(d),
{
    lemma_ext_deps_contains(g, x, d);
    let j = choose|j: int| 0 <= j < g.len() && (#[trigger] g[j]).0 == x && non_builtin(g[j].1).contains(d);
    lemma_non_builtin_contains(g[j].1, d);
    lemma_missing_deps_exact(g, entry_names(g), (x, d));
}

/// Where some entry of `dt` is keyed `y`, a first such entry exists.
proof fn lemma_first_key(dt: Seq<(Seq<char>, Seq<Seq<char>>)>, y: Seq<char>, i: int)
    requires
        0 <= i < dt.len(),
        dt[i].0 == y,
    ensures
        exists|j: int| 0 <= j < dt.len() && dt[j].0 == y && forall|k: int| 0 <= k < j ==> dt[k].0 != y,
    decreases i,
{
    if exists|k: int| 0 <= k < i && dt[k].0 == y {
        let k = choose|k: int| 0 <= k < i && dt[k].0 == y;
        lemma_first_key(dt, y, k);
    } else {
        assert(forall|k: int| 0 <= k < i ==> dt[k].0 != y);
    }
}

/// Without a dependency cycle or a missing dependency, every extension
/// loads: a load order leaves none out.
pub proof fn lemma_acyclic_extensions_all_load(g: Seq<(Seq<char>, Seq<Seq<char>>)>, o: Seq<Seq<char>>)
    requires
        is_extension_order(g, o),
        missing_deps(g, entry_names(g)).len() == 0,
        !exists|c: Seq<Seq<char>>| is_extension_cycle(g, c),
    ensures
        forall|x: Seq<char>| entry_names(g).contains(x) ==> o.contains(x),
{
    let names = entry_names(g);
    if exists|x: Seq<char>| names.contains(x) && !o.contains(x) {
        let x = choose|x: Seq<char>| names.contains(x) && !o.contains(x);
        let u = lemma_unplaced_seq(names, o);
        let dt = u.map_values(|y: Seq<char>| (y, ext_deps(g, y)));
        assert forall|y: Seq<char>| u.contains(y) implies deps_of(dt, y) == ext_deps(g, y) by {
            reveal(dep_entry_index);
            let i = choose|i: int| 0 <= i < u.len() && u[i] == y;
            assert(dt[i] == (u[i], ext_deps(g, u[i])));
            lemma_first_key(dt, y, i);
            let j = choose|j: int| 0 <= j < dt.len() && dt[j].0 == y && forall|k: int| 0 <= k < j ==> dt[k].0 != y;
            assert(dt[j] == (u[j], ext_deps(g, u[j])));
        }
        assert forall|t: int| 0 <= t < u.len() implies has_dep_in(dt, #[trigger] u[t], u) by {
            let y = u[t];
            assert(u.contains(y));
            assert(!ext_ready(g, o, y));
            let k = choose|k: int| 0 <= k < ext_deps(g, y).len() && !o.contains(#[trigger] ext_deps(g, y)[k]);
            let d = ext_deps(g, y)[k];
            assert(ext_deps(g, y).contains(d));
            lemma_ext_dep_named(g, y, d);
            assert(u.contains(d));
            assert(deps_of(dt, y)[k] == d);
        }
        assert forall|y: Seq<char>| #[trigger] u.contains(y) implies u.contains(y) && !Seq::<Seq<char>>::empty().contains(y) by {}
        assert(u.contains(x));
        lemma_live_leads(dt, u, Seq::empty(), u, x);
        reveal(leads_to_cycle);
        let w = choose|w: Seq<Seq<char>>| #[trigger] is_unplaced_lasso(dt, u, Seq::empty(), w) && w[0] == x;
        lemma_lasso_cycle(dt, u, Seq::empty(), w);
        let c = choose|c: Seq<Seq<char>>| is_dependency_cycle(dt, u, c);
        assert forall|k: int| 0 <= k < c.len() implies names.contains(#[trigger] c[k]) by {
            assert(u.contains(c[k]));
        }
        assert forall|k: int| 0 <= k < c.len() - 1 implies ext_deps(g, #[trigger] c[k]).contains(c[k + 1]) by {
            assert(u.contains(c[k]));
            assert(deps_of(dt, c[k]) == ext_deps(g, c[k]));
        }
        assert(is_extension_cycle(g, c));
    }
}

/// Two graphs describe the same extensions: the same names and, for each,
/// the same dependencies on other extensions.
pub open spec fn same_extensions(g1: Seq<(Seq<char>, Seq<Seq<char>>)>, g2: Seq<(Seq<char>, Seq<Seq<char>>)>) -> bool {
    &&& forall|x: Seq<char>| #[trigger] entry_names(g1).contains(x) <==> entry_names(g2).contains(x)
    &&& forall|x: Seq<char>, d: Seq<char>| #[trigger] ext_deps(g1, x).contains(d) <==> ext_deps(g2, x).contains(d)
}

/// `d` is a dependency of `x` on another extension exactly when some entry
/// named `x` lists it.
proof fn lemma_ext_deps_contains(g: Seq<(Seq<char>, Seq<Seq<char>>)>, x: Seq<char>, d: Seq<char>)
    ensures
        ext_deps(g, x).contains(d) <==> exists|j: int| 0 <= j < g.len() && (#[trigger] g[j]).0 == x && non_builtin(g[j].1).contains(d),
    decreases g.len(),
{
    if g.len() > 0 {
        let rest = g.drop_last();
        lemma_ext_deps_contains(rest, x, d);
        let a = ext_deps(rest, x);
        let e = ext_deps(g, x);
        let last = g.last();
        if last.0 == x {
            let b = non_builtin(last.1);
            assert(e == a + b);
            if e.contains(d) {
                let k = choose|k: int| 0 <= k < e.len() && e[k] == d;
                if k < a.len() {
                    assert(a[k] == d);
                    let j = choose|j: int| 0 <= j < rest.len() && (#[trigger] rest[j]).0 == x && non_builtin(rest[j].1).contains(d);
                    assert(g[j] == rest[j]);
                } else {
                    assert(b[k - a.len()] == d);
                    assert(g[g.len() - 1] == last);
                }
            }
            if exists|j: int| 0 <= j < g.len() && (#[trigger] g[j]).0 == x && non_builtin(g[j].1).contains(d) {
                let j = choose|j: int| 0 <= j < g.len() && (#[trigger] g[j]).0 == x && non_builtin(g[j].1).contains(d);
                if j < g.len() - 1 {
                    assert(rest[j] == g[j]);
                    let k = choose|k: int| 0 <= k < a.len() && a[k] == d;
                    assert(e[k] == d);
                } else {
                    let k = choose|k: int| 0 <= k < b.len() && b[k] == d;
                    assert(e[a.len() + k] == d);
                }
            }
        } else {
            if exists|j: int| 0 <= j < g.len() && (#[trigger] g[j]).0 == x && non_builtin(g[j].1).contains(d) {
                let j = choose|j: int| 0 <= j < g.len() && (#[trigger] g[j]).0 == x && non_builtin(g[j].1).contains(d);
                assert(j < g.len() - 1);
                assert(rest[j] == g[j]);
            }
            if a.contains(d) {
                let j = choose|j: int| 0 <= j < rest.len() && (#[trigger] rest[j]).0 == x && non_builtin(rest[j].1).contains(d);
                assert(g[j] == rest[j]);
            }
        }
    }
}

/// Graphs with the same entries, in any order, describe the same
/// extensions.
proof fn lemma_permuted_same_extensions(g1: Seq<(Seq<char>, Seq<Seq<char>>)>, g2: Seq<(Seq<char>, Seq<Seq<char>>)>)
    requires
        g1.to_multiset() == g2.to_multiset(),
    ensures
        same_extensions(g1, g2),
{
    broadcast use vstd::seq_lib::group_to_multiset_ensures;
    assert forall|e: (Seq<char>, Seq<Seq<char>>)| g1.contains(e) <==> g2.contains(e) by {
        assert(g1.contains(e) <==> g1.to_multiset().count(e) > 0);
        assert(g2.contains(e) <==> g2.to_multiset().count(e) > 0);
    }
    assert forall|x: Seq<char>| #[trigger] entry_names(g1).contains(x) <==> entry_names(g2).contains(x) by {
        if entry_names(g1).contains(x) {
            let j = choose|j: int| 0 <= j < g1.len() && entry_names(g1)[j] == x;
            assert(g1.contains(g1[j]));
            let k = choose|k: int| 0 <= k < g2.len() && g2[k] == g1[j];
            assert(entry_names(g2)[k] == x);
        }
        if entry_names(g2).contains(x) {
            let j = choose|j: int| 0 <= j < g2.len() && entry_names(g2)[j] == x;
            assert(g2.contains(g2[j]));
            let k = choose|k: int| 0 <= k < g1.len() && g1[k] == g2[j];
            assert(entry_names(g1)[k] == x);
        }
    }
    assert forall|x: Seq<char>, d: Seq<char>| #[trigger] ext_deps(g1, x).contains(d) <==> ext_deps(g2, x).contains(d) by {
        lemma_ext_deps_contains(g1, x, d);
        lemma_ext_deps_contains(g2, x, d);
        if ext_deps(g1, x).contains(d) {
            let j = choose|j: int| 0 <= j < g1.len() && (#[trigger] g1[j]).0 == x && non_builtin(g1[j].1).contains(d);
            assert(g1.contains(g1[j]));
            let k = choose|k: int| 0 <= k < g2.len() && g2[k] == g1[j];
            assert(g2[k].0 == x && non_builtin(g2[k].1).contains(d));
        }
        if ext_deps(g2, x).contains(d) {
            let j = choose|j: int| 0 <= j < g2.len() && (#[trigger] g2[j]).0 == x && non_builtin(g2[j].1).contains(d);
            assert(g2.contains(g2[j]));
            let k = choose|k: int| 0 <= k < g1.len() && g1[k] == g2[j];
            assert(g1[k].0 == x && non_builtin(g1[k].1).contains(d));
        }
    }
}

/// In a sequence without duplicates, the position of an element is the
/// one it is found at.
proof fn lemma_pos_in_at(o: Seq<Seq<char>>, k: int)
    requires
        o.no_duplicates(),
        0 <= k < o.len(),
    ensures
        pos_in(o, o[k]) == k,
{
    let p = pos_in(o, o[k]);
    assert(0 <= p < o.len() && o[p] == o[k]);
}

/// The last position of dependencies all met in the first `i` places of
/// `o`: each dependency sits no later, and when there are any one sits
/// exactly there.
proof fn lemma_last_dep_pos_bounds(o: Seq<Seq<char>>, deps: Seq<Seq<char>>)
    requires
        forall|k: int| 0 <= k < deps.len() ==> o.contains(#[trigger] deps[k]),
    ensures
        deps.len() == 0 ==> last_dep_pos(o, deps) == -1,
        forall|k: int| 0 <= k < deps.len() ==> pos_in(o, #[trigger] deps[k]) <= last_dep_pos(o, deps),
        deps.len() > 0 ==> exists|k: int| 0 <= k < deps.len() && last_dep_pos(o, deps) == pos_in(o, #[trigger] deps[k]),
    decreases deps.len(),
{
    if deps.len() > 0 {
        let rest = deps.drop_last();
        assert forall|k: int| 0 <= k < rest.len() implies o.contains(#[trigger] rest[k]) by {
            assert(rest[k] == deps[k]);
        }
        lemma_last_dep_pos_bounds(o, rest);
        assert forall|k: int| 0 <= k < deps.len() implies pos_in(o, #[trigger] deps[k]) <= last_dep_pos(o, deps) by {
            if k < deps.len() - 1 {
                assert(rest[k] == deps[k]);
            }
        }
        if rest.len() > 0 {
            let k = choose|k: int| 0 <= k < rest.len() && last_dep_pos(o, rest) == pos_in(o, #[trigger] rest[k]);
            assert(rest[k] == deps[k]);
        }
        assert(deps[deps.len() - 1] == deps.last());
    }
}

/// Dependencies with the same members, all met in a common prefix of two
/// orders without duplicates, became ready at the same position in both.
proof fn lemma_same_ready(o1: Seq<Seq<char>>, o2: Seq<Seq<char>>, i: int, d1: Seq<Seq<char>>, d2: Seq<Seq<char>>)
    requires
        o1.no_duplicates(),
        o2.no_duplicates(),
        0 <= i <= o1.len(),
        i <= o2.len(),
        o1.take(i) == o2.take(i),
        forall|d: Seq<char>| #[trigger] d1.contains(d) <==> d2.contains(d),
        forall|k: int| 0 <= k < d1.len() ==> o1.take(i).contains(#[trigger] d1[k]),
    ensures
        last_dep_pos(o1, d1) == last_dep_pos(o2, d2),
{
    let p = o1.take(i);
    assert forall|d: Seq<char>| p.contains(d) implies pos_in(o1, d) == pos_in(o2, d) && pos_in(o1, d) < i by {
        let k = choose|k: int| 0 <= k < p.len() && p[k] == d;
        assert(o1[k] == d && o2[k] == d);
        lemma_pos_in_at(o1, k);
        lemma_pos_in_at(o2, k);
    }
    assert forall|k: int| 0 <= k < d1.len() implies o1.contains(#[trigger] d1[k]) by {
        let j = choose|j: int| 0 <= j < p.len() && p[j] == d1[k];
        assert(o1[j] == d1[k]);
    }
    assert forall|k: int| 0 <= k < d2.len() implies p.contains(#[trigger] d2[k]) by {
        assert(d2.contains(d2[k]));
        assert(d1.contains(d2[k]));
        let j = choose|j: int| 0 <= j < d1.len() && d1[j] == d2[k];
    }
    assert forall|k: int| 0 <= k < d2.len() implies o2.contains(#[trigger] d2[k]) by {
        let j = choose|j: int| 0 <= j < p.len() && p[j] == d2[k];
        assert(o2[j] == d2[k]);
    }
    lemma_last_dep_pos_bounds(o1, d1);
    lemma_last_dep_pos_bounds(o2, d2);
    let r1 = last_dep_pos(o1, d1);
    let r2 = last_dep_pos(o2, d2);
    if d1.len() == 0 {
        if d2.len() > 0 {
            assert(d2.contains(d2[0]));
            assert(d1.contains(d2[0]));
        }
    } else {
        if d2.len() == 0 {
            assert(d1.contains(d1[0]));
            assert(d2.contains(d1[0]));
        }
        let k1 = choose|k: int| 0 <= k < d1.len() && r1 == pos_in(o1, #[trigger] d1[k]);
        let k2 = choose|k: int| 0 <= k < d2.len() && r2 == pos_in(o2, #[trigger] d2[k]);
        assert(d1.contains(d1[k1]));
        assert(d2.contains(d1[k1]));
        let m2 = choose|m: int| 0 <= m < d2.len() && d2[m] == d1[k1];
        assert(pos_in(o2, d2[m2]) <= r2);
        assert(p.contains(d1[k1]));
        assert(pos_in(o1, d1[k1]) == pos_in(o2, d1[k1]));
        assert(d2.contains(d2[k2]));
        assert(d1.contains(d2[k2]));
        let m1 = choose|m: int| 0 <= m < d1.len() && d1[m] == d2[k2];
        assert(pos_in(o1, d1[m1]) <= r1);
        assert(p.contains(d2[k2]));
        assert(pos_in(o1, d2[k2]) == pos_in(o2, d2[k2]));
    }
}

/// Readiness after a prefix is the same in graphs describing the same
/// extensions.
proof fn lemma_same_ready_set(g1: Seq<(Seq<char>, Seq<Seq<char>>)>, g2: Seq<(Seq<char>, Seq<Seq<char>>)>, p: Seq<Seq<char>>, x: Seq<char>)
    requires
        same_extensions(g1, g2),
        ext_ready(g1, p, x),
    ensures
        ext_ready(g2, p, x),
{
    assert(entry_names(g1).contains(x));
    assert forall|k: int| 0 <= k < ext_deps(g2, x).len() implies p.contains(#[trigger] ext_deps(g2, x)[k]) by {
        let d = ext_deps(g2, x)[k];
        assert(ext_deps(g2, x).contains(d));
        assert(ext_deps(g1, x).contains(d));
        let j = choose|j: int| 0 <= j < ext_deps(g1, x).len() && ext_deps(g1, x)[j] == d;
    }
}

/// The load order does not depend on how the extensions are listed: two
/// graphs describing the same extensions (for instance the same manifests
/// in another order) have one and the same load order.
pub proof fn lemma_extension_order_unique(
    g1: Seq<(Seq<char>, Seq<Seq<char>>)>,
    g2: Seq<(Seq<char>, Seq<Seq<char>>)>,
    o1: Seq<Seq<char>>,
    o2: Seq<Seq<char>>,
)
    requires
        same_extensions(g1, g2),
        is_extension_order(g1, o1),
        is_extension_order(g2, o2),
    ensures
        o1 == o2,
{
    let n: int = if o1.len() < o2.len() { o1.len() as int } else { o2.len() as int };
    lemma_orders_agree_upto(g1, g2, o1, o2, n);
    if o1.len() > n {
        assert(o2 =~= o2.take(n));
        lemma_order_complete(g1, g2, o1, o2, n);
    } else if o2.len() > n {
        assert(o1 =~= o1.take(n));
        lemma_order_complete(g2, g1, o2, o1, n);
    } else {
        assert(o1 =~= o1.take(n));
        assert(o2 =~= o2.take(n));
    }
}

/// Listing the same manifests in another order gives the same load order:
/// the orders of two manifest lists whose (name, dependencies) entries are
/// the same up to order are equal.
pub proof fn lemma_extension_order_ignores_listing(
    m1: Seq<(String, ExtensionManifest)>,
    m2: Seq<(String, ExtensionManifest)>,
    o1: Seq<Seq<char>>,
    o2: Seq<Seq<char>>,
)
    requires
        manifest_graph(m1).to_multiset() == manifest_graph(m2).to_multiset(),
        is_extension_order(manifest_graph(m1), o1),
        is_extension_order(manifest_graph(m2), o2),
    ensures
        o1 == o2,
{
    lemma_permuted_same_extensions(manifest_graph(m1), manifest_graph(m2));
    lemma_extension_order_unique(manifest_graph(m1), manifest_graph(m2), o1, o2);
}

/// Two orders of the same extensions agree on their first `i` places.
proof fn lemma_orders_agree_upto(
    g1: Seq<(Seq<char>, Seq<Seq<char>>)>,
    g2: Seq<(Seq<char>, Seq<Seq<char>>)>,
    o1: Seq<Seq<char>>,
    o2: Seq<Seq<char>>,
    i: int,
)
    requires
        same_extensions(g1, g2),
        is_extension_order(g1, o1),
        is_extension_order(g2, o2),
        0 <= i <= o1.len(),
        i <= o2.len(),
    ensures
        o1.take(i) == o2.take(i),
    decreases i,
{
    if i > 0 {
        lemma_orders_agree_upto(g1, g2, o1, o2, i - 1);
        lemma_orders_agree_at(g1, g2, o1, o2, i - 1);
        assert(o1.take(i) =~= o1.take(i - 1).push(o1[i - 1]));
        assert(o2.take(i) =~= o2.take(i - 1).push(o2[i - 1]));
    } else {
        assert(o1.take(0) =~= o2.take(0));
    }
}

/// An order that is a prefix of another order of the same extensions is the
/// whole of it: an order cannot stop while an extension it left out is
/// ready.
proof fn lemma_order_complete(
    g1: Seq<(Seq<char>, Seq<Seq<char>>)>,
    g2: Seq<(Seq<char>, Seq<Seq<char>>)>,
    o1: Seq<Seq<char>>,
    o2: Seq<Seq<char>>,
    n: int,
)
    requires
        same_extensions(g1, g2) || same_extensions(g2, g1),
        is_extension_order(g1, o1),
        is_extension_order(g2, o2),
        0 <= n <= o1.len(),
        o2.len() == n,
        o1.take(n) == o2,
    ensures
        o1.len() == n,
{
    if n == o1.len() {
        return;
    }
    let x = o1[n];
    assert(ext_ready(g1, o1.take(n), x));
    assert(same_extensions(g1, g2)) by {
        if !same_extensions(g1, g2) {
            assert forall|y: Seq<char>| #[trigger] entry_names(g1).contains(y) <==> entry_names(g2).contains(y) by {
                assert(entry_names(g2).contains(y) <==> entry_names(g1).contains(y));
            }
            assert forall|y: Seq<char>, d: Seq<char>| #[trigger] ext_deps(g1, y).contains(d) <==> ext_deps(g2, y).contains(d) by {
                assert(ext_deps(g2, y).contains(d) <==> ext_deps(g1, y).contains(d));
            }
        }
    }
    lemma_same_ready_set(g1, g2, o2, x);
    assert(!o2.contains(x));
    assert(entry_names(g2).contains(x));
}

/// Two orders of the same extensions that agree on their first `i` places
/// agree on the next.
proof fn lemma_orders_agree_at(
    g1: Seq<(Seq<char>, Seq<Seq<char>>)>,
    g2: Seq<(Seq<char>, Seq<Seq<char>>)>,
    o1: Seq<Seq<char>>,
    o2: Seq<Seq<char>>,
    i: int,
)
    requires
        same_extensions(g1, g2),
        is_extension_order(g1, o1),
        is_extension_order(g2, o2),
        0 <= i < o1.len(),
        i < o2.len(),
        o1.take(i) == o2.take(i),
    ensures
        o1[i] == o2[i],
{
    let p = o1.take(i);
    let a = o1[i];
    let b = o2[i];
    if a != b {
        assert(ext_ready(g1, p, a));
        assert(ext_ready(g2, p, b));
        lemma_same_ready_set(g1, g2, p, a);
        assert forall|y: Seq<char>| #[trigger] entry_names(g2).contains(y) <==> entry_names(g1).contains(y) by {}
        assert forall|y: Seq<char>, d: Seq<char>| #[trigger] ext_deps(g2, y).contains(d) <==> ext_deps(g1, y).contains(d) by {
            assert(ext_deps(g1, y).contains(d) <==> ext_deps(g2, y).contains(d));
        }
        assert(same_extensions(g2, g1));
        lemma_same_ready_set(g2, g1, p, b);
        // `a` is in `o2`, after position `i`.
        lemma_ready_later(g2, o2, i, a);
        let ja = choose|j: int| i < j < o2.len() && o2[j] == a;
        lemma_ready_later(g1, o1, i, b);
        let jb = choose|j: int| i < j < o1.len() && o1[j] == b;
        assert(loads_before(g1, o1, o1[i], o1[jb]));
        assert(loads_before(g2, o2, o2[i], o2[ja]));
        // Both became ready inside the common prefix, at the same places.
        assert forall|d: Seq<char>| #[trigger] ext_deps(g1, a).contains(d) <==> ext_deps(g2, a).contains(d) by {}
        assert forall|d: Seq<char>| #[trigger] ext_deps(g1, b).contains(d) <==> ext_deps(g2, b).contains(d) by {}
        lemma_same_ready(o1, o2, i, ext_deps(g1, a), ext_deps(g2, a));
        lemma_same_ready(o1, o2, i, ext_deps(g1, b), ext_deps(g2, b));
        if lex_lt(a, b) {
            lemma_lex_asymmetric(a, b);
        }
    }
}

/// An extension ready after the first `i` places of an order, but not at
/// place `i`, comes later in it.
proof fn lemma_ready_later(g: Seq<(Seq<char>, Seq<Seq<char>>)>, o: Seq<Seq<char>>, i: int, x: Seq<char>)
    requires
        is_extension_order(g, o),
        0 <= i < o.len(),
        ext_ready(g, o.take(i), x),
        o[i] != x,
    ensures
        exists|j: int| i < j < o.len() && o[j] == x,
{
    if !o.contains(x) {
        assert forall|k: int| 0 <= k < ext_deps(g, x).len() implies o.contains(#[trigger] ext_deps(g, x)[k]) by {
            let d = ext_deps(g, x)[k];
            let j = choose|j: int| 0 <= j < o.take(i).len() && o.take(i)[j] == d;
            assert(o[j] == d);
        }
        assert(ext_ready(g, o, x));
    } else {
        let j = choose|j: int| 0 <= j < o.len() && o[j] == x;
        if j < i {
            assert(o.take(i)[j] == x);
        }
    }
}

/// `items` joined with `", "`.
pub open spec fn comma_join(items: Seq<Seq<char>>) -> Seq<char>
    decreases items.len(),
{
    if items.len() == 0 {
        Seq::empty()
    } else if items.len() == 1 {
        items[0]
    } else {
        comma_join(items.drop_last()) + ", "@ + items.last()
    }
}

/// With no duplicates in `o`, the position of `o[i]` is `i`.
proof fn lemma_pos_in(o: Seq<Seq<char>>, i: int)
    requires
        o.no_duplicates(),
        0 <= i < o.len(),
    ensures
        pos_in(o, o[i]) == i,
{
    let p = pos_in(o, o[i]);
    assert(0 <= p < o.len() && o[p] == o[i]);
}

/// The last dependency position is below `k` when every dependency is
/// among the first `k` of `o`.
proof fn lemma_last_dep_pos_bound(o: Seq<Seq<char>>, deps: Seq<Seq<char>>, k: int)
    requires
        o.no_duplicates(),
        0 <= k <= o.len(),
        forall|j: int| 0 <= j < deps.len() ==> o.take(k).contains(#[trigger] deps[j]),
    ensures
        -1 <= last_dep_pos(o, deps) < k,
    decreases deps.len(),
{
    if deps.len() > 0 {
        assert forall|j: int| 0 <= j < deps.drop_last().len() implies o.take(k).contains(#[trigger] deps.drop_last()[j]) by {
            assert(deps.drop_last()[j] == deps[j]);
        }
        lemma_last_dep_pos_bound(o, deps.drop_last(), k);
        assert(o.take(k).contains(deps[deps.len() - 1]));
        let t = choose|t: int| 0 <= t < o.take(k).len() && o.take(k)[t] == deps.last();
        assert(o[t] == deps.last());
        lemma_pos_in(o, t);
    }
}

/// Appending to `o` does not move dependencies that are already in `o`.
proof fn lemma_last_dep_pos_push(o: Seq<Seq<char>>, y: Seq<char>, deps: Seq<Seq<char>>)
    requires
        o.push(y).no_duplicates(),
        forall|j: int| 0 <= j < deps.len() ==> o.contains(#[trigger] deps[j]),
    ensures
        last_dep_pos(o.push(y), deps) == last_dep_pos(o, deps),
    decreases deps.len(),
{
    if deps.len() > 0 {
        assert forall|j: int| 0 <= j < deps.drop_last().len() implies o.contains(#[trigger] deps.drop_last()[j]) by {
            assert(deps.drop_last()[j] == deps[j]);
        }
        lemma_last_dep_pos_push(o, y, deps.drop_last());
        assert(o.contains(deps[deps.len() - 1]));
        let t = choose|t: int| 0 <= t < o.len() && o[t] == deps.last();
        assert(o.push(y)[t] == deps.last());
        assert(o.no_duplicates()) by {
            assert forall|a: int, b: int| 0 <= a < o.len() && 0 <= b < o.len() && a != b implies o[a] != o[b] by {
                assert(o.push(y)[a] == o[a] && o.push(y)[b] == o[b]);
            }
        }
        lemma_pos_in(o, t);
        lemma_pos_in(o.push(y), t);
    }
}

/// The last dependency position is at least that of any dependency.
proof fn lemma_last_dep_pos_ge(o: Seq<Seq<char>>, deps: Seq<Seq<char>>, j: int)
    requires
        0 <= j < deps.len(),
    ensures
        last_dep_pos(o, deps) >= pos_in(o, deps[j]),
    decreases deps.len(),
{
    if j < deps.len() - 1 {
        assert(deps.drop_last()[j] == deps[j]);
        lemma_last_dep_pos_ge(o, deps.drop_last(), j);
    }
}

/// The names of `ms`' manifests, in order.
fn manifest_names(manifests: &[(String, ExtensionManifest)]) -> (r: Vec<String>)
    ensures
        r.deep_view() == entry_names(manifest_graph(manifests@)),
{
    let ghost g = manifest_graph(manifests@);
    let mut r: Vec<String> = Vec::new();
    let mut i: usize = 0;
    while i < manifests.len()
        invariant
            g == manifest_graph(manifests@),
            i <= manifests@.len(),
            r@.len() == i,
            forall|k: int| 0 <= k < i ==> r@[k]@ == manifests@[k].1.name@,
        decreases manifests@.len() - i,
    {
        r.push(copy_str(&manifests[i].1.name));
        i = i + 1;
    }
    assert(r.deep_view() =~= entry_names(g));
    r
}

/// Whether `d` names a built-in datatype.
fn is_builtin(d: &str) -> (r: bool)
    ensures
        r == is_builtin_name(d@),
{
    str_eq(d, "identity") || str_eq(d, "room") || str_eq(d, "timeline") || str_eq(d, "message")
}

/// The (extension, dependency) pairs whose dependency is neither built in
/// nor among the extensions.
fn find_missing(manifests: &[(String, ExtensionManifest)], names: &Vec<String>) -> (r: Vec<(String, String)>)
    requires
        names.deep_view() == entry_names(manifest_graph(manifests@)),
    ensures
        r.deep_view() == missing_deps(manifest_graph(manifests@), names.deep_view()),
{
    let ghost g = manifest_graph(manifests@);
    let ghost nv = names.deep_view();
    let mut out: Vec<(String, String)> = Vec::new();
    let mut i: usize = 0;
    while i < manifests.len()
        invariant
            g == manifest_graph(manifests@),
            nv == names.deep_view(),
            i <= manifests@.len(),
            out.deep_view() == missing_deps(g.take(i as int), nv),
        decreases manifests@.len() - i,
    {
        let m = &manifests[i].1;
        let ghost before = out.deep_view();
        assert(g[i as int] == (m.name@, m.ext_dependencies.deep_view()));
        let mut k: usize = 0;
        while k < m.ext_dependencies.len()
            invariant
                nv == names.deep_view(),
                k <= m.ext_dependencies@.len(),
                out.deep_view() == before + missing_of(m.name@, m.ext_dependencies.deep_view().take(k as int), nv),
            decreases m.ext_dependencies@.len() - k,
        {
            let d = &m.ext_dependencies[k];
            let ghost dk = m.ext_dependencies.deep_view().take(k + 1);
            assert(dk.drop_last() == m.ext_dependencies.deep_view().take(k as int));
            assert(dk.last() == d@);
            if !is_builtin(d) && !contains_str(names, d) {
                let ghost old_out = out.deep_view();
                out.push((copy_str(&m.name), copy_str(d)));
                assert(out.deep_view() =~= old_out.push((m.name@, d@)));
                assert(missing_of(m.name@, dk, nv) == missing_of(m.name@, dk.drop_last(), nv).push((m.name@, d@)));
                assert(out.deep_view() =~= before + missing_of(m.name@, dk, nv));
            }
            k = k + 1;
        }
        proof {
            assert(m.ext_dependencies.deep_view().take(m.ext_dependencies@.len() as int) == m.ext_dependencies.deep_view());
            assert(g.take(i + 1).drop_last() == g.take(i as int));
            assert(g.take(i + 1).last() == g[i as int]);
        }
        i = i + 1;
    }
    assert(g.take(manifests@.len() as int) == g);
    out
}

/// `deps` without the built-in datatypes, in order.
fn non_builtin_deps(deps: &Vec<String>) -> (r: Vec<String>)
    ensures
        r.deep_view() == non_builtin(deps.deep_view()),
{
    let mut r: Vec<String> = Vec::new();
    let mut k: usize = 0;
    while k < deps.len()
        invariant
            k <= deps@.len(),
            r.deep_view() == non_builtin(deps.deep_view().take(k as int)),
        decreases deps@.len() - k,
    {
        let ghost dk = deps.deep_view().take(k + 1);
        assert(dk.drop_last() == deps.deep_view().take(k as int));
        assert(dk.last() == deps@[k as int]@);
        if !is_builtin(&deps[k]) {
            r.push(copy_str(&deps[k]));
            assert(r.deep_view() =~= non_builtin(dk));
        }
        k = k + 1;
    }
    assert(deps.deep_view().take(deps@.len() as int) == deps.deep_view());
    r
}

/// The dependencies of extension `x` on other extensions.
fn deps_of_extension(manifests: &[(String, ExtensionManifest)], x: &str) -> (r: Vec<String>)
    ensures
        r.deep_view() == ext_deps(manifest_graph(manifests@), x@),
{
    let ghost g = manifest_graph(manifests@);
    let mut r: Vec<String> = Vec::new();
    let mut i: usize = 0;
    while i < manifests.len()
        invariant
            g == manifest_graph(manifests@),
            i <= manifests@.len(),
            r.deep_view() == ext_deps(g.take(i as int), x@),
        decreases manifests@.len() - i,
    {
        let m = &manifests[i].1;
        assert(g[i as int] == (m.name@, m.ext_dependencies.deep_view()));
        assert(g.take(i + 1).drop_last() == g.take(i as int));
        assert(g.take(i + 1).last() == g[i as int]);
        if str_eq(&m.name, x) {
            let nb = non_builtin_deps(&m.ext_dependencies);
            let ghost before = r.deep_view();
            let mut k: usize = 0;
            while k < nb.len()
                invariant
                    k <= nb@.len(),
                    r.deep_view() == before + nb.deep_view().take(k as int),
                decreases nb@.len() - k,
            {
                let ghost old_r = r.deep_view();
                r.push(copy_str(&nb[k]));
                assert(r.deep_view() =~= old_r.push(nb@[k as int]@));
                assert(nb.deep_view().take(k + 1) =~= nb.deep_view().take(k as int).push(nb@[k as int]@));
                assert(r.deep_view() =~= before + nb.deep_view().take(k + 1));
                k = k + 1;
            }
            assert(nb.deep_view().take(nb@.len() as int) == nb.deep_view());
        }
        i = i + 1;
    }
    assert(g.take(manifests@.len() as int) == g);
    r
}

/// `ready_at` of an element placed at `k` is below `k`.
proof fn lemma_ready_at_bound(g: Seq<(Seq<char>, Seq<Seq<char>>)>, o: Seq<Seq<char>>, k: int)
    requires
        o.no_duplicates(),
        0 <= k < o.len(),
        ext_ready(g, o.take(k), o[k]),
    ensures
        -1 <= ready_at(g, o, o[k]) < k,
{
    let deps = ext_deps(g, o[k]);
    assert forall|j: int| 0 <= j < deps.len() implies o.take(k).contains(#[trigger] deps[j]) by {
        assert(o.take(k).contains(ext_deps(g, o[k])[j]));
    }
    lemma_last_dep_pos_bound(o, deps, k);
}

/// Appending `y` leaves `ready_at` of an element whose dependencies are
/// all placed unchanged.
proof fn lemma_ready_at_stable(g: Seq<(Seq<char>, Seq<Seq<char>>)>, o: Seq<Seq<char>>, y: Seq<char>, z: Seq<char>)
    requires
        o.push(y).no_duplicates(),
        forall|j: int| 0 <= j < ext_deps(g, z).len() ==> o.contains(#[trigger] ext_deps(g, z)[j]),
    ensures
        ready_at(g, o.push(y), z) == ready_at(g, o, z),
{
    lemma_last_dep_pos_push(o, y, ext_deps(g, z));
}

/// `o` is a valid prefix of the load order.
pub open spec fn is_order_prefix(g: Seq<(Seq<char>, Seq<Seq<char>>)>, o: Seq<Seq<char>>) -> bool {
    &&& o.no_duplicates()
    &&& forall|i: int| 0 <= i < o.len() ==> entry_names(g).contains(#[trigger] o[i])
    &&& forall|i: int| 0 <= i < o.len() ==> ext_ready(g, o.take(i), #[trigger] o[i])
    &&& forall|i: int, j: int| 0 <= i < j < o.len() ==> loads_before(g, o, #[trigger] o[i], #[trigger] o[j])
    &&& forall|k: int, z: Seq<char>| 0 <= k < o.len() && #[trigger] ext_ready(g, o, z) ==> loads_before(g, o, #[trigger] o[k], z)
}

/// Appending the first of the ready extensions keeps a valid prefix.
proof fn lemma_append_step(g: Seq<(Seq<char>, Seq<Seq<char>>)>, o: Seq<Seq<char>>, x: Seq<char>)
    requires
        is_order_prefix(g, o),
        ext_ready(g, o, x),
        forall|z: Seq<char>| ext_ready(g, o, z) ==> z == x || loads_before(g, o, x, z),
    ensures
        is_order_prefix(g, o.push(x)),
{
    let o2 = o.push(x);
    let n = o.len() as int;
    assert(o2.no_duplicates()) by {
        assert forall|a: int, b: int| 0 <= a < o2.len() && 0 <= b < o2.len() && a != b implies o2[a] != o2[b] by {
            if a < n && b < n {
                assert(o2[a] == o[a] && o2[b] == o[b]);
            } else if a == n {
                assert(o.contains(o2[b]));
            } else {
                assert(o.contains(o2[a]));
            }
        }
    }
    assert(o2.take(n) == o);
    assert(o.take(n) =~= o);
    assert(o2[n] == x);
    assert(o2.contains(x));
    // every placed element keeps its ready time
    assert forall|k: int| 0 <= k < o2.len() implies
        ready_at(g, o2, #[trigger] o2[k]) == ready_at(g, o, o2[k]) && ready_at(g, o, o2[k]) < n by {
        if k < n {
            assert(o2[k] == o[k]);
            assert(o2.take(k) == o.take(k));
            assert forall|j: int| 0 <= j < ext_deps(g, o[k]).len() implies o.contains(#[trigger] ext_deps(g, o[k])[j]) by {
                assert(o.take(k).contains(ext_deps(g, o[k])[j]));
            }
            lemma_ready_at_stable(g, o, x, o[k]);
            lemma_ready_at_bound(g, o, k);
        } else {
            assert(o2[k] == x);
            lemma_ready_at_stable(g, o, x, x);
            assert forall|j: int| 0 <= j < ext_deps(g, x).len() implies o.take(n).contains(#[trigger] ext_deps(g, x)[j]) by {
                assert(o.contains(ext_deps(g, x)[j]));
            }
            lemma_last_dep_pos_bound(o, ext_deps(g, x), n);
        }
    }
    assert forall|i: int| 0 <= i < o2.len() implies ext_ready(g, o2.take(i), #[trigger] o2[i]) by {
        if i < n {
            assert(o2.take(i) == o.take(i));
            assert(o2[i] == o[i]);
        }
    }
    assert forall|i: int, j: int| 0 <= i < j < o2.len() implies loads_before(g, o2, #[trigger] o2[i], #[trigger] o2[j]) by {
        assert(o2[i] == o[i]);
        let ri = ready_at(g, o2, o2[i]);
        let rj = ready_at(g, o2, o2[j]);
        if j < n {
            assert(o2[j] == o[j]);
            assert(loads_before(g, o, o[i], o[j]));
        } else {
            assert(o2[j] == x);
            assert(loads_before(g, o, o[i], x));
        }
    }
    assert forall|k: int, z: Seq<char>| 0 <= k < o2.len() && #[trigger] ext_ready(g, o2, z) implies loads_before(g, o2, #[trigger] o2[k], z) by {
        let rk = ready_at(g, o2, o2[k]);
        assert(rk < n);
        if forall|j: int| 0 <= j < ext_deps(g, z).len() ==> o.contains(#[trigger] ext_deps(g, z)[j]) {
            lemma_ready_at_stable(g, o, x, z);
            assert(z != x);
            assert(ext_ready(g, o, z));
            if k < n {
                assert(o2[k] == o[k]);
                assert(loads_before(g, o, o[k], z));
            } else {
                assert(o2[k] == x);
                assert(loads_before(g, o, x, z));
            }
        } else {
            let j = choose|j: int| 0 <= j < ext_deps(g, z).len() && !o.contains(#[trigger] ext_deps(g, z)[j]);
            assert(o2.contains(ext_deps(g, z)[j]));
            let t = choose|t: int| 0 <= t < o2.len() && o2[t] == ext_deps(g, z)[j];
            if t < n {
                assert(o.contains(ext_deps(g, z)[j]));
            }
            assert(t == n);
            lemma_pos_in(o2, n);
            lemma_last_dep_pos_ge(o2, ext_deps(g, z), j);
            assert(ready_at(g, o2, z) >= n);
        }
    }
}

/// The strings of `names` without repetitions, in order of first occurrence.
fn distinct(names: &Vec<String>) -> (r: Vec<String>)
    ensures
        r.deep_view().no_duplicates(),
        forall|x: Seq<char>| r.deep_view().contains(x) <==> names.deep_view().contains(x),
{
    let mut r: Vec<String> = Vec::new();
    let mut i: usize = 0;
    while i < names.len()
        invariant
            i <= names@.len(),
            r.deep_view().no_duplicates(),
            forall|x: Seq<char>| r.deep_view().contains(x) <==> names.deep_view().take(i as int).contains(x),
        decreases names@.len() - i,
    {
        let ghost before = r.deep_view();
        let ghost ti = names.deep_view().take(i as int);
        let ghost ti1 = names.deep_view().take(i + 1);
        let ghost y = names@[i as int]@;
        assert(ti1 == ti.push(y));
        assert(forall|x: Seq<char>| before.contains(x) <==> ti.contains(x));
        if !contains_str(&r, &names[i]) {
            r.push(copy_str(&names[i]));
            assert(r.deep_view() =~= before.push(y));
            assert forall|x: Seq<char>| r.deep_view().contains(x) <==> ti1.contains(x) by {
                if x == y {
                    assert(r.deep_view()[before.len() as int] == x);
                    assert(ti1[i as int] == x);
                } else {
                    if r.deep_view().contains(x) {
                        let t = choose|t: int| 0 <= t < r.deep_view().len() && r.deep_view()[t] == x;
                        assert(before[t] == x);
                        assert(before.contains(x));
                        let u = choose|u: int| 0 <= u < ti.len() && ti[u] == x;
                        assert(ti1[u] == x);
                    }
                    if ti1.contains(x) {
                        let u = choose|u: int| 0 <= u < ti1.len() && ti1[u] == x;
                        assert(ti[u] == x);
                        assert(ti.contains(x));
                        let t = choose|t: int| 0 <= t < before.len() && before[t] == x;
                        assert(r.deep_view()[t] == x);
                    }
                }
            }
        } else {
            assert forall|x: Seq<char>| r.deep_view().contains(x) <==> ti1.contains(x) by {
                if ti1.contains(x) {
                    let u = choose|u: int| 0 <= u < ti1.len() && ti1[u] == x;
                    if u < i {
                        assert(ti[u] == x);
                    }
                }
                if r.deep_view().contains(x) {
                    assert(ti.contains(x));
                    let u = choose|u: int| 0 <= u < ti.len() && ti[u] == x;
                    assert(ti1[u] == x);
                }
            }
        }
        i = i + 1;
    }
    assert(names.deep_view().take(names@.len() as int) == names.deep_view());
    r
}

/// The position of `d` among the placed names.
fn position_of_name(placed: &Vec<String>, d: &str) -> (r: Option<usize>)
    requires
        placed.deep_view().no_duplicates(),
    ensures
        match r {
            Some(p) => p < placed@.len() && placed.deep_view()[p as int] == d@ && pos_in(placed.deep_view(), d@) == p,
            None => !placed.deep_view().contains(d@),
        },
{
    let mut i: usize = 0;
    while i < placed.len()
        invariant
            i <= placed@.len(),
            placed.deep_view().no_duplicates(),
            forall|k: int| 0 <= k < i ==> placed.deep_view()[k] != d@,
        decreases placed@.len() - i,
    {
        if str_eq(&placed[i], d) {
            assert(placed.deep_view()[i as int] == d@);
            proof { lemma_pos_in(placed.deep_view(), i as int); }
            return Some(i);
        }
        i = i + 1;
    }
    None
}

/// One more than the position of the last placed dependency (0 for none),
/// when every dependency is placed.
fn ready_key(placed: &Vec<String>, deps: &Vec<String>) -> (r: Option<usize>)
    requires
        placed.deep_view().no_duplicates(),
    ensures
        match r {
            Some(v) => {
                &&& forall|j: int| 0 <= j < deps@.len() ==> placed.deep_view().contains(#[trigger] deps.deep_view()[j])
                &&& v == last_dep_pos(placed.deep_view(), deps.deep_view()) + 1
            },
            None => exists|j: int| 0 <= j < deps@.len() && !placed.deep_view().contains(#[trigger] deps.deep_view()[j]),
        },
{
    let ghost o = placed.deep_view();
    let ghost dv = deps.deep_view();
    let mut best: usize = 0;
    let mut k: usize = 0;
    let n = placed.len();
    while k < deps.len()
        invariant
            o == placed.deep_view(),
            o.len() == n,
            dv == deps.deep_view(),
            o.no_duplicates(),
            k <= dv.len(),
            forall|j: int| 0 <= j < k ==> o.contains(#[trigger] dv[j]),
            best == last_dep_pos(o, dv.take(k as int)) + 1,
            best <= o.len(),
        decreases dv.len() - k,
    {
        assert(dv.take(k + 1).drop_last() == dv.take(k as int));
        assert(dv.take(k + 1).last() == dv[k as int]);
        match position_of_name(placed, &deps[k]) {
            Some(p) => {
                if p + 1 > best {
                    best = p + 1;
                }
            },
            None => {
                return None;
            },
        }
        k = k + 1;
    }
    assert(dv.take(dv.len() as int) == dv);
    Some(best)
}

/// The order in which the extensions of `manifests` load: repeatedly the
/// ready extension that became ready first (alphabetically among those that
/// became ready together); extensions caught in or behind a dependency
/// cycle are left out.
pub fn extension_load_order(manifests: &[(String, ExtensionManifest)]) -> (r: Vec<String>)
    ensures
        is_extension_order(manifest_graph(manifests@), r.deep_view()),
{
    let ghost g = manifest_graph(manifests@);
    let names = manifest_names(manifests);
    let dn = distinct(&names);
    let ghost dv = dn.deep_view();
    let mut dn_deps: Vec<Vec<String>> = Vec::new();
    let mut i: usize = 0;
    while i < dn.len()
        invariant
            dv == dn.deep_view(),
            g == manifest_graph(manifests@),
            i <= dv.len(),
            dn_deps@.len() == i,
            forall|k: int| 0 <= k < i ==> (#[trigger] dn_deps@[k]).deep_view() == ext_deps(g, dv[k]),
        decreases dv.len() - i,
    {
        dn_deps.push(deps_of_extension(manifests, &dn[i]));
        i = i + 1;
    }
    let mut placed: Vec<String> = Vec::new();
    assert(is_order_prefix(g, placed.deep_view()));
    loop
        invariant
            dv == dn.deep_view(),
            g == manifest_graph(manifests@),
            dv.no_duplicates(),
            forall|x: Seq<char>| dv.contains(x) <==> entry_names(g).contains(x),
            dn_deps@.len() == dv.len(),
            forall|k: int| 0 <= k < dv.len() ==> (#[trigger] dn_deps@[k]).deep_view() == ext_deps(g, dv[k]),
            is_order_prefix(g, placed.deep_view()),
        ensures
            is_extension_order(g, placed.deep_view()),
        decreases dv.len() - placed@.len(),
    {
        let ghost o = placed.deep_view();
        proof {
            assert forall|x: Seq<char>| o.contains(x) implies dv.contains(x) by {
                let t = choose|t: int| 0 <= t < o.len() && o[t] == x;
                assert(entry_names(g).contains(o[t]));
            }
            lemma_distinct_subseq_len(o, dv);
        }
        let mut best: Option<(usize, usize)> = None;
        let mut idx: usize = 0;
        while idx < dn.len()
            invariant
                dv == dn.deep_view(),
                o == placed.deep_view(),
                o.no_duplicates(),
                idx <= dv.len(),
                dn_deps@.len() == dv.len(),
                forall|k: int| 0 <= k < dv.len() ==> (#[trigger] dn_deps@[k]).deep_view() == ext_deps(g, dv[k]),
                forall|x: Seq<char>| dv.contains(x) <==> entry_names(g).contains(x),
                best is None ==> forall|m: int| 0 <= m < idx ==> !ext_ready(g, o, #[trigger] dv[m]),
                best matches Some((bi, bk)) ==> {
                    &&& bi < dv.len()
                    &&& ext_ready(g, o, dv[bi as int])
                    &&& bk == ready_at(g, o, dv[bi as int]) + 1
                    &&& forall|m: int| 0 <= m < idx && ext_ready(g, o, #[trigger] dv[m])
                        ==> dv[m] == dv[bi as int] || loads_before(g, o, dv[bi as int], dv[m])
                },
            decreases dv.len() - idx,
        {
            let x = &dn[idx];
            assert(dv[idx as int] == x@);
            if !contains_str(&placed, x) {
                assert(dn_deps@[idx as int].deep_view() == ext_deps(g, x@));
                match ready_key(&placed, &dn_deps[idx]) {
                    Some(k) => {
                        proof {
                            assert(dv.contains(x@));
                            assert(entry_names(g).contains(x@));
                            assert(ext_ready(g, o, x@));
                        }
                        let better = match best {
                            None => true,
                            Some((bi, bk)) => k < bk || (k == bk && str_lt(x, &dn[bi])),
                        };
                        if better {
                            proof {
                                if let Some((bi, bk)) = best {
                                    let b = dv[bi as int];
                                    assert forall|m: int| 0 <= m < idx && ext_ready(g, o, #[trigger] dv[m])
                                        implies dv[m] == x@ || loads_before(g, o, x@, dv[m]) by {
                                        if dv[m] != b {
                                            assert(loads_before(g, o, b, dv[m]));
                                            if lex_lt(x@, b) && lex_lt(b, dv[m]) {
                                                crate::text::lemma_lex_transitive(x@, b, dv[m]);
                                            }
                                        }
                                    }
                                }
                            }
                            best = Some((idx, k));
                        } else {
                            proof {
                                if let Some((bi, bk)) = best {
                                    let b = dv[bi as int];
                                    lemma_lex_total(x@, b);
                                    assert(x@ == b || loads_before(g, o, b, x@));
                                }
                            }
                        }
                    },
                    None => {
                        assert(!ext_ready(g, o, x@));
                    },
                }
            } else {
                assert(!ext_ready(g, o, x@));
            }
            idx = idx + 1;
        }
        match best {
            None => {
                proof {
                    assert forall|x: Seq<char>| entry_names(g).contains(x) && !o.contains(x) implies !ext_ready(g, o, x) by {
                        assert(dv.contains(x));
                        let t = choose|t: int| 0 <= t < dv.len() && dv[t] == x;
                        assert(!ext_ready(g, o, dv[t]));
                    }
                }
                break;
            },
            Some((bi, _)) => {
                let ghost x = dv[bi as int];
                proof {
                    assert forall|z: Seq<char>| ext_ready(g, o, z) implies z == x || loads_before(g, o, x, z) by {
                        assert(dv.contains(z));
                        let t = choose|t: int| 0 <= t < dv.len() && dv[t] == z;
                        assert(ext_ready(g, o, dv[t]));
                    }
                    lemma_append_step(g, o, x);
                    assert(!o.contains(x));
                }
                placed.push(copy_str(&dn[bi]));
                assert(placed.deep_view() =~= o.push(x));
            },
        }
    }
    placed
}

/// `items` joined with `", "`.
fn join_comma(items: &Vec<String>) -> (r: String)
    ensures
        r@ == comma_join(items.deep_view()),
{
    let mut r = String::new();
    let mut k: usize = 0;
    while k < items.len()
        invariant
            k <= items@.len(),
            r@ == comma_join(items.deep_view().take(k as int)),
        decreases items@.len() - k,
    {
        let ghost t = items.deep_view().take(k + 1);
        assert(t.drop_last() == items.deep_view().take(k as int));
        assert(t.last() == items@[k as int]@);
        if k > 0 {
            r.append(", ");
        } else {
            assert(t.len() == 1);
        }
        r.append(&items[k]);
        k = k + 1;
    }
    assert(items.deep_view().take(items@.len() as int) == items.deep_view());
    r
}

/// The reason given for a dependency that is neither built in nor loaded.
pub open spec fn missing_reason(dep: Seq<char>) -> Seq<char> {
    "missing dependency: '"@ + dep + "' is not loaded"@
}

/// The errors reported for the extensions that a dependency cycle blocks:
/// one per blocked extension, each naming all of them.
pub open spec fn is_cycle_report(g: Seq<(Seq<char>, Seq<Seq<char>>)>, o: Seq<Seq<char>>, errs: Seq<ExtensionLoadError>) -> bool {
    let c = errs.map_values(|e: ExtensionLoadError| e.name@);
    &&& c.no_duplicates()
    &&& forall|x: Seq<char>| c.contains(x) <==> (entry_names(g).contains(x) && !o.contains(x))
    &&& forall|i: int| 0 <= i < errs.len() ==> (#[trigger] errs[i]).reason@ == "circular dependency involving: "@ + comma_join(c)
}

/// Whether `r` is what ordering `manifests` for loading gives: one error
/// per dependency that is neither built in nor another of the extensions,
/// in manifest order; otherwise the load order, or, when a dependency cycle
/// blocks some extensions, an error for each of them.
pub open spec fn extension_order_outcome(manifests: Seq<(String, ExtensionManifest)>,
    r: Result<Vec<String>, Vec<ExtensionLoadError>>) -> bool {
    let g = manifest_graph(manifests);
    let miss = missing_deps(g, entry_names(g));
    &&& miss.len() > 0 ==> (r matches Err(errs) && errs@.len() == miss.len() && forall|i: int| 0 <= i < miss.len() ==> {
        &&& (#[trigger] errs@[i]).name@ == miss[i].0
        &&& errs@[i].reason@ == missing_reason(miss[i].1)
    })
    &&& miss.len() == 0 ==> exists|o: Seq<Seq<char>>| {
        &&& is_extension_order(g, o)
        &&& (forall|x: Seq<char>| entry_names(g).contains(x) ==> o.contains(x)) ==> (r matches Ok(v) && v.deep_view() == o)
        &&& !(forall|x: Seq<char>| entry_names(g).contains(x) ==> o.contains(x)) ==> (r matches Err(errs) && is_cycle_report(g, o, errs@))
    }
}

/// Orders extensions for loading. A dependency that is neither a built-in
/// datatype (identity, room, timeline, message) nor another of the
/// extensions gives one error per such dependency, in manifest order.
/// Otherwise the result is the load order of `extension_load_order`, or,
/// when a dependency cycle blocks some extensions, an error for each of
/// them.
pub fn resolve_extension_order(manifests: &[(String, ExtensionManifest)]) -> (r: Result<Vec<String>, Vec<ExtensionLoadError>>)
    ensures
        extension_order_outcome(manifests@, r),
        ({
            let g = manifest_graph(manifests@);
            missing_deps(g, entry_names(g)).len() == 0 && !(exists|c: Seq<Seq<char>>| is_extension_cycle(g, c))
                ==> (r matches Ok(v) && forall|x: Seq<char>| entry_names(g).contains(x) ==> v.deep_view().contains(x))
        }),
{
    let r = order_extensions(manifests);
    proof {
        let g = manifest_graph(manifests@);
        if missing_deps(g, entry_names(g)).len() == 0 && !(exists|c: Seq<Seq<char>>| is_extension_cycle(g, c)) {
            let o = choose|o: Seq<Seq<char>>| {
                &&& is_extension_order(g, o)
                &&& (forall|x: Seq<char>| entry_names(g).contains(x) ==> o.contains(x)) ==> (r matches Ok(v) && v.deep_view() == o)
                &&& !(forall|x: Seq<char>| entry_names(g).contains(x) ==> o.contains(x)) ==> (r matches Err(errs) && is_cycle_report(g, o, errs@))
            };
            lemma_acyclic_extensions_all_load(g, o);
        }
    }
    r
}

/// Orders extensions for loading: the work of `resolve_extension_order`.
fn order_extensions(manifests: &[(String, ExtensionManifest)]) -> (r: Result<Vec<String>, Vec<ExtensionLoadError>>)
    ensures
        extension_order_outcome(manifests@, r),
{
    let ghost g = manifest_graph(manifests@);
    let names = manifest_names(manifests);
    let missing = find_missing(manifests, &names);
    let ghost miss = missing.deep_view();
    if missing.len() > 0 {
        let mut errs: Vec<ExtensionLoadError> = Vec::new();
        let mut i: usize = 0;
        while i < missing.len()
            invariant
                miss == missing.deep_view(),
                i <= miss.len(),
                errs@.len() == i,
                forall|k: int| 0 <= k < i ==> {
                    &&& (#[trigger] errs@[k]).name@ == miss[k].0
                    &&& errs@[k].reason@ == missing_reason(miss[k].1)
                },
            decreases miss.len() - i,
        {
            let mut reason = concat2("missing dependency: '", &missing[i].1);
            reason.append("' is not loaded");
            errs.push(ExtensionLoadError { name: copy_str(&missing[i].0), reason });
            i = i + 1;
        }
        return Err(errs);
    }
    let order = extension_load_order(manifests);
    let ghost o = order.deep_view();
    let dn = distinct(&names);
    let ghost dv = dn.deep_view();
    let mut blocked: Vec<String> = Vec::new();
    let mut i: usize = 0;
    while i < dn.len()
        invariant
            dv == dn.deep_view(),
            o == order.deep_view(),
            dv.no_duplicates(),
            i <= dv.len(),
            blocked.deep_view().no_duplicates(),
            forall|x: Seq<char>| #![trigger blocked.deep_view().contains(x)] #![trigger dv.take(i as int).contains(x)]
                blocked.deep_view().contains(x) <==> (dv.take(i as int).contains(x) && !o.contains(x)),
        decreases dv.len() - i,
    {
        let ghost before = blocked.deep_view();
        let ghost ti = dv.take(i as int);
        let ghost ti1 = dv.take(i + 1);
        assert(ti1 == ti.push(dv[i as int]));
        assert forall|x: Seq<char>| before.contains(x) <==> (ti.contains(x) && !o.contains(x)) by {
            assert(blocked.deep_view().contains(x) <==> (dv.take(i as int).contains(x) && !o.contains(x)));
        }
        if !contains_str(&order, &dn[i]) {
            blocked.push(copy_str(&dn[i]));
            assert(blocked.deep_view() =~= before.push(dv[i as int]));
            proof {
                assert(!ti.contains(dv[i as int])) by {
                    if ti.contains(dv[i as int]) {
                        let u = choose|u: int| 0 <= u < ti.len() && ti[u] == dv[i as int];
                        assert(dv[u] == dv[i as int]);
                    }
                }
                assert forall|x: Seq<char>| blocked.deep_view().contains(x) <==> (ti1.contains(x) && !o.contains(x)) by {
                    if x == dv[i as int] {
                        assert(blocked.deep_view()[before.len() as int] == x);
                        assert(ti1[i as int] == x);
                    } else {
                        if blocked.deep_view().contains(x) {
                            let t = choose|t: int| 0 <= t < blocked.deep_view().len() && blocked.deep_view()[t] == x;
                            assert(before[t] == x);
                            assert(before.contains(x));
                            let u = choose|u: int| 0 <= u < ti.len() && ti[u] == x;
                            assert(ti1[u] == x);
                        }
                        if ti1.contains(x) && !o.contains(x) {
                            let u = choose|u: int| 0 <= u < ti1.len() && ti1[u] == x;
                            assert(ti[u] == x);
                            assert(ti.contains(x));
                            let t = choose|t: int| 0 <= t < before.len() && before[t] == x;
                            assert(blocked.deep_view()[t] == x);
                        }
                    }
                }
            }
        } else {
            assert forall|x: Seq<char>| blocked.deep_view().contains(x) <==> (ti1.contains(x) && !o.contains(x)) by {
                if ti1.contains(x) && !o.contains(x) {
                    let u = choose|u: int| 0 <= u < ti1.len() && ti1[u] == x;
                    if u < i {
                        assert(ti[u] == x);
                    }
                }
                if blocked.deep_view().contains(x) {
                    assert(ti.contains(x));
                    let u = choose|u: int| 0 <= u < ti.len() && ti[u] == x;
                    assert(ti1[u] == x);
                }
            }
        }
        i = i + 1;
    }
    assert(dv.take(dv.len() as int) == dv);
    if blocked.len() == 0 {
        proof {
            assert forall|x: Seq<char>| entry_names(g).contains(x) implies o.contains(x) by {
                assert(dv.contains(x));
                if !o.contains(x) {
                    assert(blocked.deep_view().contains(x));
                }
            }
        }
        return Ok(order);
    }
    let joined = join_comma(&blocked);
    let mut errs: Vec<ExtensionLoadError> = Vec::new();
    let mut k: usize = 0;
    while k < blocked.len()
        invariant
            k <= blocked@.len(),
            errs@.len() == k,
            forall|j: int| 0 <= j < k ==> (#[trigger] errs@[j]).name@ == blocked@[j]@,
            forall|j: int| 0 <= j < k ==> (#[trigger] errs@[j]).reason@ == "circular dependency involving: "@ + joined@,
        decreases blocked@.len() - k,
    {
        errs.push(ExtensionLoadError {
            name: copy_str(&blocked[k]),
            reason: concat2("circular dependency involving: ", &joined),
        });
        k = k + 1;
    }
    proof {
        let c = errs@.map_values(|e: ExtensionLoadError| e.name@);
        assert(c =~= blocked.deep_view());
        let x0 = blocked.deep_view()[0];
        assert(blocked.deep_view().contains(x0));
        assert(dv.take(dv.len() as int).contains(x0) && !o.contains(x0));
        assert(dv.contains(x0));
        assert(names.deep_view().contains(x0));
        assert(entry_names(g).contains(x0) && !o.contains(x0));
        assert(!(forall|x: Seq<char>| entry_names(g).contains(x) ==> o.contains(x)));
        assert forall|x: Seq<char>| c.contains(x) <==> (entry_names(g).contains(x) && !o.contains(x)) by {
            if c.contains(x) {
                assert(dv.take(dv.len() as int).contains(x));
                assert(dv.contains(x));
                assert(names.deep_view().contains(x));
            }
            if entry_names(g).contains(x) && !o.contains(x) {
                assert(names.deep_view().contains(x));
                assert(dv.contains(x));
                assert(dv.take(dv.len() as int).contains(x));
            }
        }
        assert(is_cycle_report(g, o, errs@));
    }
    Err(errs)
}

/// The operating systems whose library naming differs.
#[derive(Debug, Clone, Copy, PartialEq, Eq, Structural)]
pub enum TargetOs {
    MacOs,
    Windows,
    /// Linux and other Unix-like systems.
    Other,
}

/// `s` with every `-` replaced by `_`.
pub open spec fn dashes_to_underscores(s: Seq<char>) -> Seq<char> {
    s.map_values(|c: char| if c == '-' { '_' } else { c })
}

/// The library file name of an extension on `os`: dashes become
/// underscores; `lib{name}.dylib` on macOS, `{name}.dll` on Windows and
/// `lib{name}.so` elsewhere.
pub open spec fn library_file_name(name: Seq<char>, os: TargetOs) -> Seq<char> {
    let safe = dashes_to_underscores(name);
    match os {
        TargetOs::MacOs => "lib"@ + safe + ".dylib"@,
        TargetOs::Windows => safe + ".dll"@,
        TargetOs::Other => "lib"@ + safe + ".so"@,
    }
}

/// The library file name of extension `ext_name` on `os`.
pub fn lib_filename(ext_name: &str, os: TargetOs) -> (r: String)
    ensures
        r@ == library_file_name(ext_name@, os),
{
    let cs = crate::text::chars_of(ext_name);
    let mut safe = String::new();
    let mut i: usize = 0;
    while i < cs.len()
        invariant
            cs@ == ext_name@,
            i <= cs@.len(),
            safe@ == dashes_to_underscores(cs@.take(i as int)),
        decreases cs@.len() - i,
    {
        let c = if cs[i] == '-' { '_' } else { cs[i] };
        crate::text::push_char(&mut safe, c);
        assert(dashes_to_underscores(cs@.take(i + 1)) =~= dashes_to_underscores(cs@.take(i as int)).push(c));
        i = i + 1;
    }
    assert(cs@.take(cs@.len() as int) == cs@);
    match os {
        TargetOs::MacOs => crate::text::concat3("lib", &safe, ".dylib"),
        TargetOs::Windows => concat2(&safe, ".dll"),
        TargetOs::Other => crate::text::concat3("lib", &safe, ".so"),
    }
}


/// The position of the last entry of `entries` whose manifest is named
/// `name`.
pub open spec fn last_named(entries: Seq<(String, ExtensionManifest)>, name: Seq<char>) -> Option<int> {
    if exists|j: int| 0 <= j < entries.len() && entries[j].1.name@ == name {
        Some(choose|j: int| 0 <= j < entries.len() && entries[j].1.name@ == name
            && forall|k: int| j < k < entries.len() ==> entries[k].1.name@ != name)
    } else {
        None
    }
}

/// The entries that loading in the order `names` takes from `entries`: for
/// each name in turn, the last entry whose manifest has that name, the
/// first time the name comes.
pub open spec fn load_steps(entries: Seq<(String, ExtensionManifest)>, names: Seq<Seq<char>>) -> Seq<(String, ExtensionManifest)>
    decreases names.len(),
{
    if names.len() == 0 {
        Seq::empty()
    } else {
        let prev = load_steps(entries, names.drop_last());
        match last_named(entries, names.last()) {
            Some(j) => if names.drop_last().contains(names.last()) { prev } else { prev.push(entries[j]) },
            None => prev,
        }
    }
}

/// Whether entry `j` was already taken by loading in the order `names`.
pub open spec fn taken(entries: Seq<(String, ExtensionManifest)>, names: Seq<Seq<char>>, j: int) -> bool {
    names.contains(entries[j].1.name@) && last_named(entries, entries[j].1.name@) == Some(j)
}

/// The position of the last of `names` equal to `name`.
fn last_index_of(names: &Vec<String>, name: &str) -> (r: Option<usize>)
    ensures
        match r {
            Some(j) => j < names@.len() && names@[j as int]@ == name@
                && forall|k: int| j < k < names@.len() ==> names@[k]@ != name@,
            None => forall|k: int| 0 <= k < names@.len() ==> names@[k]@ != name@,
        },
{
    let mut i: usize = names.len();
    while i > 0
        invariant
            i <= names@.len(),
            forall|k: int| i <= k < names@.len() ==> names@[k]@ != name@,
        decreases i,
    {
        if str_eq(&names[i - 1], name) {
            return Some(i - 1);
        }
        i = i - 1;
    }
    None
}

/// Entry `j` is the last whose manifest is named `n` when no later one is.
proof fn lemma_last_named_at(all: Seq<(String, ExtensionManifest)>, n: Seq<char>, j: int)
    requires
        0 <= j < all.len(),
        all[j].1.name@ == n,
        forall|q: int| j < q < all.len() ==> all[q].1.name@ != n,
    ensures
        last_named(all, n) == Some(j),
{
    let c = choose|m: int| 0 <= m < all.len() && all[m].1.name@ == n && forall|q: int| m < q < all.len() ==> all[q].1.name@ != n;
    assert(exists|m: int| 0 <= m < all.len() && all[m].1.name@ == n && forall|q: int| m < q < all.len() ==> all[q].1.name@ != n);
    if c < j {
        assert(all[j].1.name@ == n);
    } else if c > j {
        assert(all[c].1.name@ == n);
    }
}

/// Loading the next name of the order adds the last entry of that name,
/// unless the name came before.
proof fn lemma_load_steps_push(all: Seq<(String, ExtensionManifest)>, before: Seq<Seq<char>>, n: Seq<char>)
    ensures
        load_steps(all, before.push(n)) == match last_named(all, n) {
            Some(j) => if before.contains(n) { load_steps(all, before) } else { load_steps(all, before).push(all[j]) },
            None => load_steps(all, before),
        },
{
    assert(before.push(n).drop_last() =~= before);
}

/// Taking the next name of the load order takes the last entry of that
/// name, if any, and leaves every other entry as it was.
proof fn lemma_taken_step(all: Seq<(String, ExtensionManifest)>, before: Seq<Seq<char>>, n: Seq<char>, q: int)
    requires
        0 <= q < all.len(),
    ensures
        taken(all, before.push(n), q) == (taken(all, before, q) || last_named(all, n) == Some(q)),
{
    let after = before.push(n);
    assert forall|x: Seq<char>| after.contains(x) <==> before.contains(x) || x == n by {
        if after.contains(x) {
            let m = choose|m: int| 0 <= m < after.len() && after[m] == x;
            if m < before.len() {
                assert(before[m] == x);
            }
        }
        if before.contains(x) {
            let m = choose|m: int| 0 <= m < before.len() && before[m] == x;
            assert(after[m] == x);
        }
        if x == n {
            assert(after[before.len() as int] == x);
        }
    }
    lemma_last_named_facts(all, n);
}

/// The slots after loading in the order `names`: empty for the entries
/// taken, the entry itself for the others.
#[verifier::opaque]
spec fn slots_after(all: Seq<(String, ExtensionManifest)>, names: Seq<Seq<char>>,
    slots: Seq<Option<(String, ExtensionManifest)>>) -> bool {
    &&& slots.len() == all.len()
    &&& forall|j: int| 0 <= j < all.len() ==> #[trigger] slots[j] == (if taken(all, names, j) { None } else { Some(all[j]) })
}

/// Taking the last entry named `n` (if any) out of the slots keeps them in
/// step with the order; the slot held the entry exactly when `n` is new.
proof fn lemma_slots_step(all: Seq<(String, ExtensionManifest)>, before: Seq<Seq<char>>, n: Seq<char>,
    old_slots: Seq<Option<(String, ExtensionManifest)>>, new_slots: Seq<Option<(String, ExtensionManifest)>>)
    requires
        slots_after(all, before, old_slots),
        match last_named(all, n) {
            Some(j) => new_slots == old_slots.update(j, None),
            None => new_slots == old_slots,
        },
    ensures
        slots_after(all, before.push(n), new_slots),
        old_slots.len() == all.len(),
        last_named(all, n) matches Some(j) ==> 0 <= j < all.len() && (old_slots[j] == if before.contains(n) {
            None::<(String, ExtensionManifest)>
        } else {
            Some(all[j])
        }),
{
    reveal(slots_after);
    lemma_last_named_facts(all, n);
    assert forall|q: int| 0 <= q < all.len() implies #[trigger] new_slots[q]
        == (if taken(all, before.push(n), q) { None } else { Some(all[q]) }) by {
        lemma_taken_step(all, before, n, q);
        if let Some(j) = last_named(all, n) {
            if q != j && all[q].1.name@ == n {
                assert(last_named(all, all[q].1.name@) == Some(j));
            }
        }
    }
    if let Some(j) = last_named(all, n) {
        assert(old_slots[j] == (if taken(all, before, j) { None } else { Some(all[j]) }));
    }
}

/// What `last_named` gives: an entry of that name with none after it.
proof fn lemma_last_named_facts(all: Seq<(String, ExtensionManifest)>, n: Seq<char>)
    ensures
        last_named(all, n) matches Some(j) ==> 0 <= j < all.len() && all[j].1.name@ == n
            && forall|q: int| j < q < all.len() ==> all[q].1.name@ != n,
        last_named(all, n) is None ==> forall|q: int| 0 <= q < all.len() ==> all[q].1.name@ != n,
{
    if exists|j: int| 0 <= j < all.len() && all[j].1.name@ == n {
        let w = choose|j: int| 0 <= j < all.len() && all[j].1.name@ == n;
        lemma_last_from(all, n, w);
    }
}

/// From an entry named `n` on, some entry named `n` has none after it.
proof fn lemma_last_from(all: Seq<(String, ExtensionManifest)>, n: Seq<char>, m: int)
    requires
        0 <= m < all.len(),
        all[m].1.name@ == n,
    ensures
        exists|j: int| 0 <= j < all.len() && all[j].1.name@ == n
            && forall|q: int| j < q < all.len() ==> all[q].1.name@ != n,
    decreases all.len() - m,
{
    if exists|q: int| m < q < all.len() && all[q].1.name@ == n {
        let q = choose|q: int| m < q < all.len() && all[q].1.name@ == n;
        lemma_last_from(all, n, q);
    } else {
        assert(forall|q: int| m < q < all.len() ==> all[q].1.name@ != n);
    }
}

/// The manifest names of `entries` and the entries themselves, each in a
/// slot of its own.
fn into_slots(entries: Vec<(String, ExtensionManifest)>) -> (r: (Vec<String>, Vec<Option<(String, ExtensionManifest)>>))
    ensures
        r.0@.len() == entries@.len(),
        r.1@.len() == entries@.len(),
        forall|j: int| 0 <= j < entries@.len() ==> #[trigger] r.0@[j]@ == entries@[j].1.name@ && r.1@[j] == Some(entries@[j]),
{
    let ghost all = entries@;
    let total = entries.len();
    let mut names: Vec<String> = Vec::new();
    let mut slots: Vec<Option<(String, ExtensionManifest)>> = Vec::new();
    let mut rest = entries;
    let mut i: usize = 0;
    while rest.len() > 0
        invariant
            rest@ == all.skip(i as int),
            i + rest@.len() == all.len(),
            all.len() == total,
            names@.len() == i,
            slots@.len() == i,
            forall|j: int| 0 <= j < i ==> #[trigger] names@[j]@ == all[j].1.name@ && slots@[j] == Some(all[j]),
        decreases rest@.len(),
    {
        let ghost old_names = names@;
        let ghost old_slots = slots@;
        let e = rest.remove(0);
        assert(e == all[i as int]);
        assert(rest@ =~= all.skip(i + 1));
        let ghost ge = e;
        let nm = copy_str(&e.1.name);
        let ghost gn = nm;
        names.push(nm);
        slots.push(Some(e));
        assert(names@ == old_names.push(gn));
        assert(slots@ == old_slots.push(Some(ge)));
        assert forall|j: int| 0 <= j < i + 1 implies #[trigger] names@[j]@ == all[j].1.name@ && slots@[j] == Some(all[j]) by {
            if j < i {
                assert(names@[j] == old_names[j]);
                assert(slots@[j] == old_slots[j]);
            } else {
                assert(names@[j]@ == ge.1.name@);
                assert(slots@[j] == Some(ge));
            }
        }
        i = i + 1;
    }
    (names, slots)
}

/// The entries of `entries` to load in the order `order`: for each name,
/// the last entry with a manifest of that name, once.
fn take_in_order(entries: Vec<(String, ExtensionManifest)>, order: &Vec<String>) -> (r: Vec<(String, ExtensionManifest)>)
    ensures
        r@ == load_steps(entries@, order.deep_view()),
{
    let ghost all = entries@;
    let (names, mut slots) = into_slots(entries);
    let ghost ov = order.deep_view();
    assert(slots_after(all, ov.take(0), slots@)) by {
        reveal(slots_after);
        assert forall|j: int| 0 <= j < all.len() implies #[trigger] slots@[j]
            == (if taken(all, ov.take(0), j) { None } else { Some(all[j]) }) by {
            assert(names@[j]@ == all[j].1.name@);
            assert(!ov.take(0).contains(all[j].1.name@));
        }
    }
    let mut out: Vec<(String, ExtensionManifest)> = Vec::new();
    let mut k: usize = 0;
    assert(ov.take(0) =~= Seq::<Seq<char>>::empty());
    while k < order.len()
        invariant
            k <= order@.len(),
            ov == order.deep_view(),
            ov.len() == order@.len(),
            names@.len() == all.len(),
            forall|j: int| 0 <= j < all.len() ==> #[trigger] names@[j]@ == all[j].1.name@,
            slots_after(all, ov.take(k as int), slots@),
            out@ == load_steps(all, ov.take(k as int)),
        decreases order@.len() - k,
    {
        let ghost n = ov[k as int];
        let ghost before = ov.take(k as int);
        let ghost old_slots = slots@;
        assert(ov.take(k + 1) =~= before.push(n));
        assert(order@[k as int]@ == n);
        let found = last_index_of(&names, &order[k]);
        proof {
            lemma_load_steps_push(all, before, n);
            match found {
                Some(j) => {
                    assert forall|q: int| j < q < all.len() implies all[q].1.name@ != n by {
                        assert(names@[q]@ == all[q].1.name@);
                    }
                    lemma_last_named_at(all, n, j as int);
                },
                None => {
                    assert forall|m: int| 0 <= m < all.len() implies all[m].1.name@ != n by {
                        assert(names@[m]@ == all[m].1.name@);
                    }
                    lemma_last_named_facts(all, n);
                    if let Some(j) = last_named(all, n) {
                        assert(all[j].1.name@ == n);
                    }
                },
            }
        }
        if let Some(j) = found {
            proof {
                reveal(slots_after);
            }
            let item = slots.remove(j);
            slots.insert(j, None);
            assert(slots@ =~= old_slots.update(j as int, None));
            proof {
                lemma_slots_step(all, before, n, old_slots, slots@);
            }
            match item {
                Some(e) => {
                    out.push(e);
                },
                None => {},
            }
        } else {
            proof {
                lemma_slots_step(all, before, n, old_slots, slots@);
            }
        }
        k = k + 1;
    }
    assert(ov.take(ov.len() as int) =~= ov);
    out
}

/// What loading extensions decides before any library opens: the
/// compatible manifests (`filter_api_version`) in their load order
/// (`resolve_extension_order`), each paired with its directory; and the
/// errors found on the way: the API-version mismatches, then, when the
/// order cannot be resolved, its errors, and nothing is loaded.
pub fn plan_extension_load(scanned: Vec<(String, ExtensionManifest)>)
    -> (r: (Vec<(String, ExtensionManifest)>, Vec<ExtensionLoadError>))
    ensures
        ({
            let comp = compatible_of(scanned@);
            let inc = incompatible_of(scanned@);
            &&& r.1@.len() >= inc.len()
            &&& forall|i: int| 0 <= i < inc.len() ==> {
                &&& (#[trigger] r.1@[i]).name@ == inc[i].name@
                &&& r.1@[i].reason@ == api_mismatch_reason(inc[i].api_version)
            }
            &&& exists|res: Result<Vec<String>, Vec<ExtensionLoadError>>| #[trigger] extension_order_outcome(comp, res)
                && match res {
                    Ok(o) => r.1@.len() == inc.len() && r.0@ == load_steps(comp, o.deep_view()),
                    Err(errs) => r.0@.len() == 0 && r.1@.skip(inc.len() as int) == errs@,
                }
        }),
{
    let (compatible, mut errors) = filter_api_version(scanned);
    let ghost comp = compatible@;
    let ghost e0 = errors@;
    let res = resolve_extension_order(compatible.as_slice());
    assert(extension_order_outcome(comp, res));
    match res {
        Ok(order) => {
            let steps = take_in_order(compatible, &order);
            (steps, errors)
        },
        Err(dep_errors) => {
            let ghost d = dep_errors@;
            let mut more = dep_errors;
            errors.append(&mut more);
            assert(errors@.skip(e0.len() as int) =~= d);
            (Vec::new(), errors)
        },
    }
}

} // verus!
