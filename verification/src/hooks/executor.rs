//! The hook executor: registration, ordering and phase-specific execution.
use vstd::prelude::*;
use crate::error::EngineError;
use crate::text::{lex_lt, str_eq, str_lt, lemma_lex_irreflexive, lemma_lex_transitive,
    lemma_lex_total, lemma_lex_asymmetric};
use crate::hooks::phase::{HookContext, HookDeclaration, HookPhase, TriggerEvent, trigger_matches};

verus! {

/// The id of the signing hook, which always runs last in the pre-send phase.
pub const SIGN_ENVELOPE_HOOK: &'static str = "identity.sign_envelope";

/// The behaviour of a hook: it reads and may change the context, and
/// succeeds or fails.
pub trait HookHandler {
    /// Running the hook on `before` may leave the context `after` and
    /// return `r`. A hook that states nothing of itself may do anything.
    open spec fn handles(&self, before: HookContext, after: HookContext, r: Result<(), EngineError>) -> bool {
        true
    }

    /// Runs the hook on the context.
    fn call(&self, ctx: &mut HookContext) -> (r: Result<(), EngineError>)
        ensures
            self.handles(*old(ctx), *final(ctx), r);
}

/// A registered hook: its declaration and its handler.
pub struct HookEntry<H: HookHandler> {
    pub decl: HookDeclaration,
    pub handler: H,
}

/// Registered hooks, the dependency order of datatypes and the built-in ids.
pub struct HookExecutor<H: HookHandler> {
    hooks: Vec<HookEntry<H>>,
    dependency_order: Vec<String>,
    builtin_ids: Vec<String>,
}

/// The strings of `v`, as character sequences.
pub open spec fn str_seq(v: Seq<String>) -> Seq<Seq<char>> {
    v.map_values(|s: String| s@)
}

/// Whether hook `d` fires in `phase` on an `event` of datatype `datatype`:
/// same phase, trigger datatype `"*"` or `datatype`, matching event.
pub open spec fn hook_fires(d: HookDeclaration, phase: HookPhase, datatype: Seq<char>, event: TriggerEvent) -> bool {
    &&& d.phase == phase
    &&& (d.trigger_datatype@ == "*"@ || d.trigger_datatype@ == datatype)
    &&& trigger_matches(d.trigger_event, event)
}

/// The position of `src` in the dependency order (its last position where
/// it occurs more than once); `usize::MAX` for a datatype not in the order.
pub open spec fn dep_rank(order: Seq<Seq<char>>, src: Seq<char>) -> int {
    if exists|i: int| 0 <= i < order.len() && order[i] == src {
        choose|i: int| 0 <= i < order.len() && order[i] == src
            && forall|j: int| i < j < order.len() ==> order[j] != src
    } else {
        usize::MAX as int
    }
}

/// Hook `a` runs before hook `b` (both positions in `decls`): lower priority
/// number first, then lower dependency rank of the source, then the source
/// id in alphabetical order, then registration order.
pub open spec fn hook_before(decls: Seq<HookDeclaration>, order: Seq<Seq<char>>, a: int, b: int) -> bool {
    let da = decls[a];
    let db = decls[b];
    let ra = dep_rank(order, da.source@);
    let rb = dep_rank(order, db.source@);
    ||| da.priority < db.priority
    ||| (da.priority == db.priority && ra < rb)
    ||| (da.priority == db.priority && ra == rb && lex_lt(da.source@, db.source@))
    ||| (da.priority == db.priority && ra == rb && da.source@ == db.source@ && a < b)
}

/// Position `k` of `decls` holds a hook that fires.
pub open spec fn fires_at(decls: Seq<HookDeclaration>, phase: HookPhase, datatype: Seq<char>, event: TriggerEvent, k: int) -> bool {
    0 <= k < decls.len() && hook_fires(decls[k], phase, datatype, event)
}

/// `s` lists exactly the hooks of `decls` that fire, each once, in the
/// order of `hook_before`.
pub open spec fn is_hook_schedule(
    decls: Seq<HookDeclaration>,
    order: Seq<Seq<char>>,
    phase: HookPhase,
    datatype: Seq<char>,
    event: TriggerEvent,
    s: Seq<usize>,
) -> bool {
    &&& forall|i: int| 0 <= i < s.len() ==> s[i] < decls.len() && hook_fires(decls[s[i] as int], phase, datatype, event)
    &&& forall|k: int| #[trigger] fires_at(decls, phase, datatype, event, k) ==> s.contains(k as usize)
    &&& forall|i: int, j: int| 0 <= i < j < s.len() ==> hook_before(decls, order, s[i] as int, s[j] as int)
}

/// `s` with its first signing hook moved to the end, in the pre-send phase;
/// `s` itself otherwise.
pub open spec fn sign_last(decls: Seq<HookDeclaration>, phase: HookPhase, s: Seq<usize>) -> Seq<usize> {
    if phase == HookPhase::PreSend && exists|k: int| 0 <= k < s.len() && decls[s[k] as int].id@ == SIGN_ENVELOPE_HOOK@ {
        let k = choose|k: int| 0 <= k < s.len() && decls[s[k] as int].id@ == SIGN_ENVELOPE_HOOK@
            && forall|j: int| 0 <= j < k ==> decls[s[j] as int].id@ != SIGN_ENVELOPE_HOOK@;
        s.remove(k).push(s[k])
    } else {
        s
    }
}

/// Whether `x` holds the characters of one of the strings of `v`.
fn contains_string(v: &Vec<String>, x: &str) -> (r: bool)
    ensures
        r == str_seq(v@).contains(x@),
{
    let mut i: usize = 0;
    while i < v.len()
        invariant
            i <= v@.len(),
            forall|j: int| 0 <= j < i ==> v@[j]@ != x@,
        decreases v@.len() - i,
    {
        if str_eq(&v[i], x) {
            assert(str_seq(v@)[i as int] == x@);
            return true;
        }
        i = i + 1;
    }
    proof {
        if str_seq(v@).contains(x@) {
            let j = choose|j: int| 0 <= j < str_seq(v@).len() && str_seq(v@)[j] == x@;
            assert(v@[j]@ == x@);
        }
    }
    false
}

/// The dependency rank of `src` in `order`.
fn dep_rank_of(order: &Vec<String>, src: &str) -> (r: usize)
    ensures
        r == dep_rank(str_seq(order@), src@),
{
    let ghost o = str_seq(order@);
    let mut i: usize = order.len();
    while i > 0
        invariant
            i <= order@.len(),
            o == str_seq(order@),
            forall|j: int| i <= j < o.len() ==> o[j] != src@,
        decreases i,
    {
        if str_eq(&order[i - 1], src) {
            proof {
                let k = (i - 1) as int;
                assert(o[k] == src@);
                let c = choose|c: int| 0 <= c < o.len() && o[c] == src@
                    && forall|j: int| c < j < o.len() ==> o[j] != src@;
                if c < k {
                    assert(o[k] != src@);
                } else if c > k {
                    assert(o[c] != src@);
                }
            }
            return i - 1;
        }
        i = i - 1;
    }
    usize::MAX
}

/// Moving one element to the end keeps every element below `n`.
proof fn lemma_move_to_end_bounded(s: Seq<usize>, k: int, n: nat)
    requires
        0 <= k < s.len(),
        forall|i: int| 0 <= i < s.len() ==> s[i] < n,
    ensures
        forall|i: int| 0 <= i < s.remove(k).push(s[k]).len() ==> s.remove(k).push(s[k])[i] < n,
{
    let r = s.remove(k).push(s[k]);
    assert forall|i: int| 0 <= i < r.len() implies r[i] < n by {
        if i < s.len() - 1 {
            if i < k { assert(r[i] == s[i]); } else { assert(r[i] == s[i + 1]); }
        } else {
            assert(r[i] == s[k]);
        }
    }
}

/// Where some hook of `s` is the signing hook, a first one is.
proof fn lemma_first_sign(decls: Seq<HookDeclaration>, s: Seq<usize>, k: int)
    requires
        0 <= k < s.len(),
        decls[s[k] as int].id@ == SIGN_ENVELOPE_HOOK@,
    ensures
        exists|c: int| 0 <= c < s.len() && decls[s[c] as int].id@ == SIGN_ENVELOPE_HOOK@
            && forall|j: int| 0 <= j < c ==> decls[s[j] as int].id@ != SIGN_ENVELOPE_HOOK@,
    decreases k,
{
    if exists|j: int| 0 <= j < k && decls[s[j] as int].id@ == SIGN_ENVELOPE_HOOK@ {
        let j = choose|j: int| 0 <= j < k && decls[s[j] as int].id@ == SIGN_ENVELOPE_HOOK@;
        lemma_first_sign(decls, s, j);
    }
}

/// Every position of the run order is below `n` when every sorted position is.
proof fn lemma_sign_last_bounded(decls: Seq<HookDeclaration>, phase: HookPhase, s: Seq<usize>, n: nat)
    requires
        forall|i: int| 0 <= i < s.len() ==> s[i] < n,
    ensures
        forall|i: int| 0 <= i < sign_last(decls, phase, s).len() ==> sign_last(decls, phase, s)[i] < n,
{
    if phase == HookPhase::PreSend && exists|k: int| 0 <= k < s.len() && decls[s[k] as int].id@ == SIGN_ENVELOPE_HOOK@ {
        let k0 = choose|k: int| 0 <= k < s.len() && decls[s[k] as int].id@ == SIGN_ENVELOPE_HOOK@;
        lemma_first_sign(decls, s, k0);
        let k = choose|k: int| 0 <= k < s.len() && decls[s[k] as int].id@ == SIGN_ENVELOPE_HOOK@
            && forall|j: int| 0 <= j < k ==> decls[s[j] as int].id@ != SIGN_ENVELOPE_HOOK@;
        lemma_move_to_end_bounded(s, k, n);
    }
}

/// No hook runs before itself.
proof fn lemma_hook_irreflexive(decls: Seq<HookDeclaration>, order: Seq<Seq<char>>, a: int)
    ensures
        !hook_before(decls, order, a, a),
{
    reveal(hook_before);
    lemma_lex_irreflexive(decls[a].source@);
}

/// `hook_before` is transitive.
proof fn lemma_hook_transitive(decls: Seq<HookDeclaration>, order: Seq<Seq<char>>, a: int, b: int, c: int)
    requires
        hook_before(decls, order, a, b),
        hook_before(decls, order, b, c),
    ensures
        hook_before(decls, order, a, c),
{
    reveal(hook_before);
    let sa = decls[a].source@;
    let sb = decls[b].source@;
    let sc = decls[c].source@;
    if lex_lt(sa, sb) && lex_lt(sb, sc) {
        lemma_lex_transitive(sa, sb, sc);
    }
}

/// Two different hooks are ordered one way or the other.
proof fn lemma_hook_total(decls: Seq<HookDeclaration>, order: Seq<Seq<char>>, a: int, b: int)
    requires
        a != b,
    ensures
        hook_before(decls, order, a, b) || hook_before(decls, order, b, a),
{
    reveal(hook_before);
    lemma_lex_total(decls[a].source@, decls[b].source@);
}

impl<H: HookHandler> HookExecutor<H> {
    /// The handlers of the registered hooks, in registration order.
    pub closed spec fn handlers(&self) -> Seq<H> {
        self.hooks@.map_values(|e: HookEntry<H>| e.handler)
    }

    /// The declarations of the registered hooks, in registration order.
    pub closed spec fn decls(&self) -> Seq<HookDeclaration> {
        self.hooks@.map_values(|e: HookEntry<H>| e.decl)
    }

    /// The dependency order of datatype ids used to rank hook sources.
    pub closed spec fn dep_order(&self) -> Seq<Seq<char>> {
        str_seq(self.dependency_order@)
    }

    /// The datatype ids that may register global hooks.
    pub closed spec fn builtins(&self) -> Seq<Seq<char>> {
        str_seq(self.builtin_ids@)
    }

    /// An executor with no hooks, no dependency order and no built-in ids.
    pub fn new() -> (x: HookExecutor<H>)
        ensures
            x.decls().len() == 0,
            x.handlers().len() == 0,
            x.dep_order().len() == 0,
            x.builtins().len() == 0,
    {
        let x = HookExecutor { hooks: Vec::new(), dependency_order: Vec::new(), builtin_ids: Vec::new() };
        assert(x.decls() =~= Seq::<HookDeclaration>::empty());
        assert(x.handlers() =~= Seq::<H>::empty());
        x
    }

    /// Sets the dependency order that ranks hooks of equal priority.
    pub fn set_dependency_order(&mut self, order: &[String])
        ensures
            final(self).dep_order() == str_seq(order@),
            final(self).decls() == old(self).decls(),
            final(self).handlers() == old(self).handlers(),
            final(self).builtins() == old(self).builtins(),
    {
        let mut v: Vec<String> = Vec::new();
        let mut i: usize = 0;
        while i < order.len()
            invariant
                i <= order@.len(),
                v@.len() == i,
                forall|j: int| 0 <= j < i ==> v@[j]@ == order@[j]@,
            decreases order@.len() - i,
        {
            let s = crate::text::copy_str(&order[i]);
            v.push(s);
            i = i + 1;
        }
        assert(str_seq(v@) =~= str_seq(order@));
        self.dependency_order = v;
    }

    /// Sets the datatype ids that may register global hooks.
    pub fn set_builtin_ids(&mut self, ids: Vec<String>)
        ensures
            final(self).builtins() == str_seq(ids@),
            final(self).decls() == old(self).decls(),
            final(self).handlers() == old(self).handlers(),
            final(self).dep_order() == old(self).dep_order(),
    {
        self.builtin_ids = ids;
    }

    /// Registers a hook. A hook on every datatype (`"*"`) from a datatype
    /// that is not built in is refused.
    pub fn register(&mut self, decl: HookDeclaration, handler: H) -> (r: Result<(), EngineError>)
        ensures
            (decl.trigger_datatype@ == "*"@ && !old(self).builtins().contains(decl.source@)) ==> {
                &&& r == Err::<(), EngineError>(EngineError::ExtensionCannotRegisterGlobalHook)
                &&& final(self).decls() == old(self).decls()
                &&& final(self).handlers() == old(self).handlers()
            },
            !(decl.trigger_datatype@ == "*"@ && !old(self).builtins().contains(decl.source@)) ==> {
                &&& r is Ok
                &&& final(self).decls() == old(self).decls().push(decl)
                &&& final(self).handlers() == old(self).handlers().push(handler)
            },
            final(self).dep_order() == old(self).dep_order(),
            final(self).builtins() == old(self).builtins(),
    {
        if str_eq(&decl.trigger_datatype, "*") && !contains_string(&self.builtin_ids, &decl.source) {
            return Err(EngineError::ExtensionCannotRegisterGlobalHook);
        }
        let ghost d = decl;
        let ghost h = handler;
        self.hooks.push(HookEntry { decl, handler });
        assert(self.decls() =~= old(self).decls().push(d));
        assert(self.handlers() =~= old(self).handlers().push(h));
        Ok(())
    }

    /// Whether hook `a` runs before hook `b`.
    fn runs_before(&self, a: usize, b: usize) -> (r: bool)
        requires
            a < self.decls().len(),
            b < self.decls().len(),
        ensures
            r == hook_before(self.decls(), self.dep_order(), a as int, b as int),
    {
        proof { reveal(hook_before); }
        let da = &self.hooks[a].decl;
        let db = &self.hooks[b].decl;
        assert(self.decls()[a as int] == *da);
        assert(self.decls()[b as int] == *db);
        if da.priority != db.priority {
            return da.priority < db.priority;
        }
        let ra = dep_rank_of(&self.dependency_order, &da.source);
        let rb = dep_rank_of(&self.dependency_order, &db.source);
        if ra != rb {
            return ra < rb;
        }
        if str_lt(&da.source, &db.source) {
            return true;
        }
        str_eq(&da.source, &db.source) && a < b
    }

    /// Whether hook `k` fires in `phase` on `event` of `datatype`.
    fn fires(&self, k: usize, phase: HookPhase, datatype: &str, event: TriggerEvent) -> (r: bool)
        requires
            k < self.decls().len(),
        ensures
            r == hook_fires(self.decls()[k as int], phase, datatype@, event),
    {
        let d = &self.hooks[k].decl;
        assert(self.decls()[k as int] == *d);
        d.phase == phase && (str_eq(&d.trigger_datatype, "*") || str_eq(&d.trigger_datatype, datatype))
            && d.trigger_event.matches(&event)
    }

    /// The hooks that fire in `phase` on `event` of `datatype`, as positions
    /// in registration order, sorted by priority, then dependency rank of
    /// the source, then source id, then registration order.
    pub fn sorted_hooks(&self, phase: HookPhase, datatype: &str, event: TriggerEvent) -> (s: Vec<usize>)
        ensures
            is_hook_schedule(self.decls(), self.dep_order(), phase, datatype@, event, s@),
    {
        let ghost decls = self.decls();
        let ghost order = self.dep_order();
        let mut s: Vec<usize> = Vec::new();
        let mut k: usize = 0;
        let n = self.hooks.len();
        assert(n == decls.len());
        while k < n
            invariant
                n == decls.len(),
                decls == self.decls(),
                order == self.dep_order(),
                k <= n,
                forall|i: int| 0 <= i < s@.len() ==> s@[i] < k && hook_fires(decls[s@[i] as int], phase, datatype@, event),
                forall|m: int| 0 <= m < k && hook_fires(decls[m], phase, datatype@, event) ==> s@.contains(m as usize),
                forall|i: int, j: int| 0 <= i < j < s@.len() ==> hook_before(decls, order, s@[i] as int, s@[j] as int),
            decreases n - k,
        {
            if self.fires(k, phase, datatype, event) {
                let mut p: usize = 0;
                while p < s.len() && !self.runs_before(k, s[p])
                    invariant
                        n == decls.len(),
                        decls == self.decls(),
                        order == self.dep_order(),
                        k < n,
                        p <= s@.len(),
                        forall|i: int| 0 <= i < s@.len() ==> s@[i] < k,
                        forall|i: int| 0 <= i < p ==> !hook_before(decls, order, k as int, s@[i] as int),
                    decreases s@.len() - p,
                {
                    p = p + 1;
                }
                let ghost old_s = s@;
                s.insert(p, k);
                proof {
                    assert(s@ == old_s.insert(p as int, k));
                    assert forall|i: int, j: int| 0 <= i < j < s@.len() implies hook_before(decls, order, s@[i] as int, s@[j] as int) by {
                        if j < p {
                            assert(s@[i] == old_s[i] && s@[j] == old_s[j]);
                        } else if j == p {
                            assert(s@[i] == old_s[i]);
                            assert(old_s[i] < k);
                            assert(!hook_before(decls, order, k as int, old_s[i] as int));
                            lemma_hook_total(decls, order, k as int, old_s[i] as int);
                        } else if i < p {
                            assert(s@[i] == old_s[i] && s@[j] == old_s[j - 1]);
                        } else if i == p {
                            assert(s@[j] == old_s[j - 1]);
                            assert(hook_before(decls, order, k as int, old_s[p as int] as int));
                            if j - 1 > p {
                                lemma_hook_transitive(decls, order, k as int, old_s[p as int] as int, old_s[j - 1] as int);
                            }
                        } else {
                            assert(s@[i] == old_s[i - 1] && s@[j] == old_s[j - 1]);
                        }
                    }
                    assert forall|m: int| 0 <= m < k + 1 && hook_fires(decls[m], phase, datatype@, event) implies s@.contains(m as usize) by {
                        if m == k {
                            assert(s@[p as int] == k);
                        } else {
                            let t = choose|t: int| 0 <= t < old_s.len() && old_s[t] == m as usize;
                            if t < p {
                                assert(s@[t] == m as usize);
                            } else {
                                assert(s@[t + 1] == m as usize);
                            }
                        }
                    }
                }
            }
            k = k + 1;
        }
        s
    }

    /// The order in which hooks run for `phase` on `event` of `datatype`:
    /// the sorted hooks, with the signing hook moved to the end in the
    /// pre-send phase.
    pub fn execution_order(&self, phase: HookPhase, datatype: &str, event: TriggerEvent) -> (r: Vec<usize>)
        ensures
            exists|s: Seq<usize>| is_hook_schedule(self.decls(), self.dep_order(), phase, datatype@, event, s)
                && r@ == sign_last(self.decls(), phase, s),
    {
        let ghost decls = self.decls();
        let mut s = self.sorted_hooks(phase, datatype, event);
        let ghost sorted = s@;
        assert(is_hook_schedule(decls, self.dep_order(), phase, datatype@, event, sorted));
        if phase == HookPhase::PreSend {
            let mut p: usize = 0;
            while p < s.len()
                invariant
                    s@ == sorted,
                    decls == self.decls(),
                    phase == HookPhase::PreSend,
                    is_hook_schedule(decls, self.dep_order(), phase, datatype@, event, sorted),
                    forall|i: int| 0 <= i < sorted.len() ==> sorted[i] < decls.len(),
                    p <= s@.len(),
                    forall|j: int| 0 <= j < p ==> decls[s@[j] as int].id@ != SIGN_ENVELOPE_HOOK@,
                decreases s@.len() - p,
            {
                let h = s[p];
                assert(decls[h as int] == self.hooks@[h as int].decl);
                if str_eq(&self.hooks[h].decl.id, SIGN_ENVELOPE_HOOK) {
                    let x = s.remove(p);
                    s.push(x);
                    proof {
                        assert(decls[sorted[p as int] as int].id@ == SIGN_ENVELOPE_HOOK@);
                        let c = choose|c: int| 0 <= c < sorted.len() && decls[sorted[c] as int].id@ == SIGN_ENVELOPE_HOOK@
                            && forall|j: int| 0 <= j < c ==> decls[sorted[j] as int].id@ != SIGN_ENVELOPE_HOOK@;
                        if c < p {
                        } else if c > p {
                            assert(decls[sorted[p as int] as int].id@ == SIGN_ENVELOPE_HOOK@);
                        }
                        assert(c == p);
                        assert(s@ == sorted.remove(p as int).push(sorted[p as int]));
                        assert(s@ == sign_last(decls, phase, sorted));
                        assert(is_hook_schedule(self.decls(), self.dep_order(), phase, datatype@, event, sorted)
                            && s@ == sign_last(self.decls(), phase, sorted));
                        assert(exists|t: Seq<usize>| is_hook_schedule(self.decls(), self.dep_order(), phase, datatype@, event, t)
                            && s@ == sign_last(self.decls(), phase, t));
                    }
                    return s;
                }
                p = p + 1;
            }
            assert(!exists|k: int| 0 <= k < sorted.len() && decls[sorted[k] as int].id@ == SIGN_ENVELOPE_HOOK@);
        }
        assert(s@ == sign_last(decls, phase, sorted));
        assert(exists|t: Seq<usize>| is_hook_schedule(self.decls(), self.dep_order(), phase, datatype@, event, t)
            && s@ == sign_last(self.decls(), phase, t));
        s
    }

    /// With no hook firing, nothing runs.
    proof fn lemma_run_order_empty(&self, phase: HookPhase, datatype: Seq<char>, event: TriggerEvent, s: Seq<usize>, r: Seq<usize>)
        requires
            is_hook_schedule(self.decls(), self.dep_order(), phase, datatype, event, s),
            r == sign_last(self.decls(), phase, s),
            forall|k: int| 0 <= k < self.decls().len() ==> !hook_fires(#[trigger] self.decls()[k], phase, datatype, event),
        ensures
            r.len() == 0,
    {
        let decls = self.decls();
        if s.len() > 0 {
            assert(hook_fires(decls[s[0] as int], phase, datatype, event));
        }
        assert(s.len() == 0);
    }

    /// Runs the hooks that fire in `phase` on the context's event and
    /// datatype, in `execution_order`, each on the context the previous one
    /// left. In the pre-send phase the first failure or rejection stops the
    /// chain and is returned; after-write and after-read hooks all run and
    /// the call succeeds.
    pub fn execute(&self, phase: HookPhase, ctx: &mut HookContext) -> (r: Result<(), EngineError>)
        ensures
            runs_hooks(self.handlers(), self.decls(), self.dep_order(), phase, *old(ctx), *final(ctx), r),
            phase != HookPhase::PreSend ==> r is Ok,
            (forall|k: int| 0 <= k < self.decls().len() ==>
                !hook_fires(#[trigger] self.decls()[k], phase, old(ctx).datatype_id@, old(ctx).event)) ==> {
                &&& r is Ok
                &&& *final(ctx) == *old(ctx)
            },
    {
        let dt = crate::text::copy_str(&ctx.datatype_id);
        let ev = ctx.event;
        let order = self.execution_order(phase, &dt, ev);
        let ghost s = choose|s: Seq<usize>| is_hook_schedule(self.decls(), self.dep_order(), phase, dt@, ev, s)
            && order@ == sign_last(self.decls(), phase, s);
        proof {
            assert(forall|i: int| 0 <= i < s.len() ==> s[i] < self.decls().len());
            assert(self.decls().len() == self.hooks@.len());
            lemma_sign_last_bounded(self.decls(), phase, s, self.hooks@.len());
            if forall|k: int| 0 <= k < self.decls().len() ==> !hook_fires(#[trigger] self.decls()[k], phase, dt@, ev) {
                self.lemma_run_order_empty(phase, dt@, ev, s, order@);
            }
        }
        let ghost mut ctxs: Seq<HookContext> = seq![*ctx];
        let ghost mut results: Seq<Result<(), EngineError>> = Seq::empty();
        let mut i: usize = 0;
        while i < order.len()
            invariant
                forall|j: int| 0 <= j < order@.len() ==> order@[j] < self.hooks@.len(),
                i <= order@.len(),
                order@.len() == 0 ==> *ctx == *old(ctx),
                dt@ == old(ctx).datatype_id@,
                ev == old(ctx).event,
                (forall|k: int| 0 <= k < self.decls().len() ==> !hook_fires(#[trigger] self.decls()[k], phase, dt@, ev))
                    ==> order@.len() == 0,
                is_run(self.handlers(), order@, phase, ctxs, results),
                order@ == sign_last(self.decls(), phase, s),
                is_hook_schedule(self.decls(), self.dep_order(), phase, dt@, ev, s),
                results.len() == i,
                ctxs[0] == *old(ctx),
                ctxs.last() == *ctx,
                i > 0 ==> !stops_chain(phase, results.last(), ctxs.last()),
            decreases order@.len() - i,
        {
            let entry = &self.hooks[order[i]];
            proof { assert(self.handlers()[order@[i as int] as int] == entry.handler); }
            let result = entry.handler.call(ctx);
            let ghost res = result;
            proof {
                let c2 = ctxs.push(*ctx);
                let r2 = results.push(res);
                assert forall|k: int| 0 <= k < r2.len() implies
                    self.handlers()[order@[k] as int].handles(c2[k], c2[k + 1], #[trigger] r2[k]) by {
                    if k < results.len() {
                        assert(c2[k] == ctxs[k]);
                        assert(c2[k + 1] == ctxs[k + 1]);
                        assert(r2[k] == results[k]);
                    }
                }
                assert forall|k: int| 0 <= k < r2.len() - 1 implies !stops_chain(phase, #[trigger] r2[k], c2[k + 1]) by {
                    assert(r2[k] == results[k]);
                    assert(c2[k + 1] == ctxs[k + 1]);
                    if k < results.len() - 1 {
                    } else {
                        assert(k == i - 1);
                    }
                }
                ctxs = c2;
                results = r2;
            }
            if let Some(e) = hook_stop_of(phase, result, ctx) {
                proof {
                    assert(results.last() == res);
                    assert(ctxs.last() == *ctx);
                    assert(stops_chain(phase, results.last(), ctxs.last()));
                    assert(stop_error(results.last(), ctxs.last(), e));
                    assert(order@ == sign_last(self.decls(), phase, s));
                    assert(is_run(self.handlers(), sign_last(self.decls(), phase, s), phase, ctxs, results));
                }
                return Err(e);
            }
            i = i + 1;
        }
        proof {
            assert(order@ == sign_last(self.decls(), phase, s));
        }
        Ok(())
    }
}

impl<H: HookHandler> Default for HookExecutor<H> {
    /// An executor with no hooks.
    fn default() -> (x: HookExecutor<H>)
        ensures
            x.decls().len() == 0,
    {
        HookExecutor::new()
    }
}

/// Whether a hook that returned `result` and left `ctx` stops the chain:
/// only in the pre-send phase, on a failure or a rejection.
pub open spec fn stops_chain(phase: HookPhase, result: Result<(), EngineError>, ctx: HookContext) -> bool {
    phase == HookPhase::PreSend && (result is Err || ctx.rejected)
}

/// The error a chain stopped by a hook ends with: the hook's failure, or a
/// `HookRejected` with the rejection reason ("rejected by hook" when none
/// was given).
pub open spec fn stop_error(result: Result<(), EngineError>, ctx: HookContext, e: EngineError) -> bool {
    match result {
        Err(x) => e == x,
        Ok(()) => e matches EngineError::HookRejected(m) && m@ == match ctx.rejection_reason {
            Some(reason) => reason@,
            None => "rejected by hook"@,
        },
    }
}

/// `ctxs` and `results` record the first `results.len()` hooks of `order`
/// run one after the other in `phase`: the k-th ran on `ctxs[k]`, left
/// `ctxs[k + 1]` and returned `results[k]`, and each but the last let the
/// chain go on.
pub open spec fn is_run<H: HookHandler>(
    handlers: Seq<H>,
    order: Seq<usize>,
    phase: HookPhase,
    ctxs: Seq<HookContext>,
    results: Seq<Result<(), EngineError>>,
) -> bool {
    &&& ctxs.len() == results.len() + 1
    &&& results.len() <= order.len()
    &&& forall|k: int| 0 <= k < results.len() ==> handlers[order[k] as int].handles(ctxs[k], ctxs[k + 1], #[trigger] results[k])
    &&& forall|k: int| 0 <= k < results.len() - 1 ==> !stops_chain(phase, #[trigger] results[k], ctxs[k + 1])
}

/// Running the hooks that fire in `phase` on `before` (with handlers
/// `handlers`, declarations `decls` and dependency order `dep_order`) may
/// leave `after` and return `r`: they ran in their schedule, with the
/// signing hook moved last in the pre-send phase, each on the context the
/// previous one left, until all had run (`r` is `Ok`) or one stopped the
/// chain (`r` is the error it stopped with).
pub open spec fn runs_hooks<H: HookHandler>(
    handlers: Seq<H>,
    decls: Seq<HookDeclaration>,
    dep_order: Seq<Seq<char>>,
    phase: HookPhase,
    before: HookContext,
    after: HookContext,
    r: Result<(), EngineError>,
) -> bool {
    exists|s: Seq<usize>, ctxs: Seq<HookContext>, results: Seq<Result<(), EngineError>>| {
        &&& is_hook_schedule(decls, dep_order, phase, before.datatype_id@, before.event, s)
        &&& #[trigger] is_run(handlers, sign_last(decls, phase, s), phase, ctxs, results)
        &&& ctxs[0] == before
        &&& ctxs.last() == after
        &&& match r {
            Ok(()) => results.len() == sign_last(decls, phase, s).len()
                && (results.len() > 0 ==> !stops_chain(phase, results.last(), ctxs.last())),
            Err(e) => results.len() > 0 && stops_chain(phase, results.last(), ctxs.last())
                && stop_error(results.last(), ctxs.last(), e),
        }
    }
}

/// What a finished hook means for the rest of the chain: `Some(error)` stops
/// it. In the pre-send phase a failure stops it with that failure, and a
/// rejection with `HookRejected` and the reason ("rejected by hook" when
/// none was given); the other phases never stop.
pub fn hook_stop_of(phase: HookPhase, result: Result<(), EngineError>, ctx: &HookContext) -> (o: Option<EngineError>)
    ensures
        phase != HookPhase::PreSend ==> o is None,
        phase == HookPhase::PreSend ==> match result {
            Err(e) => o == Some(e),
            Ok(()) => if !ctx.rejected {
                o is None
            } else {
                o matches Some(EngineError::HookRejected(m)) && m@ == match ctx.rejection_reason {
                    Some(r) => r@,
                    None => "rejected by hook"@,
                }
            },
        },
{
    if phase != HookPhase::PreSend {
        return None;
    }
    match result {
        Err(e) => Some(e),
        Ok(()) => {
            if ctx.rejected {
                match &ctx.rejection_reason {
                    Some(r) => Some(EngineError::HookRejected(crate::text::copy_str(r))),
                    None => Some(EngineError::HookRejected(crate::text::copy_str("rejected by hook"))),
                }
            } else {
                None
            }
        },
    }
}

/// In the pre-send phase, when a firing hook is the signing hook, the last
/// hook to run is a signing hook, whatever the priorities.
pub proof fn lemma_sign_envelope_runs_last(
    decls: Seq<HookDeclaration>,
    order: Seq<Seq<char>>,
    datatype: Seq<char>,
    event: TriggerEvent,
    s: Seq<usize>,
    k: int,
)
    requires
        is_hook_schedule(decls, order, HookPhase::PreSend, datatype, event, s),
        decls.len() <= usize::MAX,
        0 <= k < decls.len(),
        hook_fires(decls[k], HookPhase::PreSend, datatype, event),
        decls[k].id@ == SIGN_ENVELOPE_HOOK@,
    ensures
        sign_last(decls, HookPhase::PreSend, s).len() == s.len(),
        decls[sign_last(decls, HookPhase::PreSend, s).last() as int].id@ == SIGN_ENVELOPE_HOOK@,
{
    assert(fires_at(decls, HookPhase::PreSend, datatype, event, k));
    assert(s.contains(k as usize));
    let t = choose|t: int| 0 <= t < s.len() && s[t] == k as usize;
    lemma_sign_moved_last(decls, s, t);
}

/// Moving the first signing hook of `s` to the end leaves a signing hook last.
proof fn lemma_sign_moved_last(decls: Seq<HookDeclaration>, s: Seq<usize>, t: int)
    requires
        0 <= t < s.len(),
        decls[s[t] as int].id@ == SIGN_ENVELOPE_HOOK@,
    ensures
        sign_last(decls, HookPhase::PreSend, s).len() == s.len(),
        decls[sign_last(decls, HookPhase::PreSend, s).last() as int].id@ == SIGN_ENVELOPE_HOOK@,
{
    lemma_first_sign(decls, s, t);
    let c = choose|c: int| 0 <= c < s.len() && decls[s[c] as int].id@ == SIGN_ENVELOPE_HOOK@
        && forall|j: int| 0 <= j < c ==> decls[s[j] as int].id@ != SIGN_ENVELOPE_HOOK@;
    assert(sign_last(decls, HookPhase::PreSend, s) == s.remove(c).push(s[c]));
}

/// Hooks run in ascending priority: in a schedule, an earlier hook never
/// has a larger priority number than a later one.
pub proof fn lemma_schedule_priority_ascending(
    decls: Seq<HookDeclaration>,
    order: Seq<Seq<char>>,
    phase: HookPhase,
    datatype: Seq<char>,
    event: TriggerEvent,
    s: Seq<usize>,
    i: int,
    j: int,
)
    requires
        is_hook_schedule(decls, order, phase, datatype, event, s),
        0 <= i < j < s.len(),
    ensures
        decls[s[i] as int].priority <= decls[s[j] as int].priority,
        s[i] != s[j],
{
    assert(hook_before(decls, order, s[i] as int, s[j] as int));
    if s[i] == s[j] {
        lemma_hook_irreflexive(decls, order, s[i] as int);
    }
}

} // verus!
