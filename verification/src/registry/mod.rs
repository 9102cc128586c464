//! Datatype registry: declarations and their dependency-ordered loading.
pub mod datatype;
pub mod dependency;

use vstd::prelude::*;
use crate::error::EngineError;
use crate::text::copy_str;
use datatype::DatatypeDeclaration;
use dependency::{arrow_join, blocked_cycle_text, contains_str, is_dependency_cycle, is_stuck_order, resolve_load_order, has_load_order, is_topological_order, is_greedy_order};

verus! {

/// The ids of `decls`, in order.
pub open spec fn decl_ids(decls: Seq<DatatypeDeclaration>) -> Seq<Seq<char>> {
    decls.map_values(|d: DatatypeDeclaration| d.id@)
}

/// The dependency table of `decls`: each id with the ids it depends on.
pub open spec fn dep_table(decls: Seq<DatatypeDeclaration>) -> Seq<(Seq<char>, Seq<Seq<char>>)> {
    decls.map_values(|d: DatatypeDeclaration| (d.id@, d.dependencies.deep_view()))
}

/// The declarations that take part in a room: every built-in one and each
/// extension whose id is enabled, in registration order.
pub open spec fn room_decls(decls: Seq<DatatypeDeclaration>, enabled: Seq<Seq<char>>) -> Seq<DatatypeDeclaration>
    decreases decls.len(),
{
    if decls.len() == 0 {
        Seq::empty()
    } else {
        let rest = room_decls(decls.drop_last(), enabled);
        let d = decls.last();
        if d.is_builtin || enabled.contains(d.id@) {
            rest.push(d)
        } else {
            rest
        }
    }
}

/// Some declaration of `room` depends on `dep`, which is not in `room`,
/// and that declaration has id `ext`.
pub open spec fn unmet_dependency(room: Seq<DatatypeDeclaration>, ext: Seq<char>, dep: Seq<char>) -> bool {
    exists|i: int, k: int| 0 <= i < room.len() && 0 <= k < room[i].dependencies@.len() && {
        &&& room[i].id@ == ext
        &&& room[i].dependencies@[k]@ == dep
        &&& !decl_ids(room).contains(dep)
    }
}

/// The registry of datatype declarations, at most one per id.
pub struct DatatypeRegistry {
    datatypes: Vec<DatatypeDeclaration>,
}

impl DatatypeRegistry {
    /// Ids are unique.
    #[verifier::type_invariant]
    spec fn ids_unique(self) -> bool {
        decl_ids(self.datatypes@).no_duplicates()
    }

    /// The registered declarations, in registration order.
    pub closed spec fn decls(&self) -> Seq<DatatypeDeclaration> {
        self.datatypes@
    }

    /// An empty registry.
    pub fn new() -> (r: DatatypeRegistry)
        ensures
            r.decls().len() == 0,
    {
        let r = DatatypeRegistry { datatypes: Vec::new() };
        assert(decl_ids(r.datatypes@) =~= Seq::<Seq<char>>::empty());
        r
    }

    /// Position of the declaration with id `id`, if any.
    fn position(&self, id: &str) -> (r: Option<usize>)
        ensures
            match r {
                Some(i) => i < self.decls().len() && self.decls()[i as int].id@ == id@,
                None => !decl_ids(self.decls()).contains(id@),
            },
    {
        let mut i: usize = 0;
        while i < self.datatypes.len()
            invariant
                i <= self.datatypes@.len(),
                forall|j: int| 0 <= j < i ==> self.datatypes@[j].id@ != id@,
            decreases self.datatypes@.len() - i,
        {
            if crate::text::str_eq(&self.datatypes[i].id, id) {
                return Some(i);
            }
            i = i + 1;
        }
        proof {
            if decl_ids(self.decls()).contains(id@) {
                let j = choose|j: int| 0 <= j < decl_ids(self.decls()).len() && decl_ids(self.decls())[j] == id@;
                assert(self.datatypes@[j].id@ == id@);
            }
        }
        None
    }

    /// Registers a declaration; an id that is already registered is refused.
    pub fn register(&mut self, decl: DatatypeDeclaration) -> (r: Result<(), EngineError>)
        ensures
            decl_ids(old(self).decls()).contains(decl.id@) ==> {
                &&& r matches Err(EngineError::DuplicateDatatype(id)) && id@ == decl.id@
                &&& final(self).decls() == old(self).decls()
            },
            !decl_ids(old(self).decls()).contains(decl.id@) ==> {
                &&& r is Ok
                &&& final(self).decls() == old(self).decls().push(decl)
            },
    {
        proof { use_type_invariant(&*self); }
        if let Some(i) = self.position(&decl.id) {
            assert(decl_ids(self.decls())[i as int] == decl.id@);
            return Err(EngineError::DuplicateDatatype(copy_str(&decl.id)));
        }
        let ghost before = self.datatypes@;
        let ghost d = decl;
        proof {
            assert(decl_ids(before.push(d)) =~= decl_ids(before).push(d.id@));
        }
        let mut v: Vec<DatatypeDeclaration> = Vec::new();
        std::mem::swap(&mut v, &mut self.datatypes);
        v.push(decl);
        self.datatypes = v;
        Ok(())
    }

    /// The declaration with id `id`, if one is registered.
    pub fn get(&self, id: &str) -> (r: Option<&DatatypeDeclaration>)
        ensures
            match r {
                Some(d) => d.id@ == id@ && self.decls().contains(*d),
                None => !decl_ids(self.decls()).contains(id@),
            },
    {
        match self.position(id) {
            Some(i) => {
                assert(self.decls()[i as int] == self.datatypes@[i as int]);
                Some(&self.datatypes[i])
            },
            None => None,
        }
    }

    /// The ids of all registered declarations, in registration order.
    pub fn ids(&self) -> (r: Vec<String>)
        ensures
            r.deep_view() == decl_ids(self.decls()),
    {
        let mut v: Vec<String> = Vec::new();
        let mut i: usize = 0;
        while i < self.datatypes.len()
            invariant
                i <= self.datatypes@.len(),
                v@.len() == i,
                forall|k: int| 0 <= k < i ==> v@[k]@ == self.datatypes@[k].id@,
            decreases self.datatypes@.len() - i,
        {
            v.push(copy_str(&self.datatypes[i].id));
            i = i + 1;
        }
        assert(v.deep_view() =~= decl_ids(self.decls()));
        v
    }

    /// The dependency order of all registered datatypes; see
    /// `resolve_load_order`.
    pub fn load_order(&self) -> (r: Result<Vec<String>, EngineError>)
        ensures
            r is Ok <==> has_load_order(decl_ids(self.decls()), dep_table(self.decls())),
            r matches Ok(o) ==> is_topological_order(decl_ids(self.decls()), dep_table(self.decls()), o.deep_view()),
            r matches Ok(o) ==> is_greedy_order(decl_ids(self.decls()), dep_table(self.decls()), o.deep_view()),
            r matches Err(e) ==> e is CircularDependency,
            r matches Err(EngineError::CircularDependency { cycle }) ==> exists|o: Seq<Seq<char>>|
                #[trigger] is_stuck_order(decl_ids(self.decls()), dep_table(self.decls()), o)
                && cycle@ == blocked_cycle_text(dep_table(self.decls()), decl_ids(self.decls()), o),
            r matches Err(EngineError::CircularDependency { cycle }) ==> {
                &&& (exists|c: Seq<Seq<char>>| is_dependency_cycle(dep_table(self.decls()), decl_ids(self.decls()), c))
                    ==> exists|c: Seq<Seq<char>>| #[trigger] is_dependency_cycle(dep_table(self.decls()), decl_ids(self.decls()), c)
                        && cycle@ == arrow_join(c)
                &&& !(exists|c: Seq<Seq<char>>| is_dependency_cycle(dep_table(self.decls()), decl_ids(self.decls()), c))
                    ==> cycle@ == "unknown cycle"@
            },
    {
        let (ids, deps) = table_of(self.datatypes.as_slice());
        let is = ids.as_slice();
        let ds = deps.as_slice();
        proof {
            assert(is.deep_view() =~= ids.deep_view());
            assert(ds.deep_view() =~= deps.deep_view());
        }
        let r = resolve_load_order(is, ds);
        proof {
            let dv = dep_table(self.decls());
            let iv = decl_ids(self.decls());
            assert(is.deep_view() == iv);
            assert(ds.deep_view() == dv);
            if let Err(EngineError::CircularDependency { cycle }) = &r {
                if exists|c: Seq<Seq<char>>| is_dependency_cycle(dv, iv, c) {
                    let c = choose|c: Seq<Seq<char>>| #[trigger] is_dependency_cycle(dv, iv, c) && cycle@ == arrow_join(c);
                    assert(is_dependency_cycle(dv, iv, c) && cycle@ == arrow_join(c));
                }
            }
        }
        r
    }

    /// The dependency order of the datatypes that take part in a room with
    /// the given enabled extensions: every built-in datatype and the enabled
    /// ones. A taking-part datatype that depends on one that does not take
    /// part gives `DependencyNotMet`; otherwise the result is that of
    /// `resolve_load_order` on the taking-part datatypes.
    pub fn load_order_for_room(&self, enabled_extensions: &[String]) -> (r: Result<Vec<String>, EngineError>)
        ensures
            ({
                let room = room_decls(self.decls(), enabled_extensions.deep_view());
                &&& (exists|e: Seq<char>, d: Seq<char>| unmet_dependency(room, e, d)) <==> (r matches Err(EngineError::DependencyNotMet { .. }))
                &&& r matches Err(EngineError::DependencyNotMet { ext, requires: d }) ==> unmet_dependency(room, ext@, d@)
                &&& r is Ok <==> (!(exists|e: Seq<char>, d: Seq<char>| unmet_dependency(room, e, d))
                    && has_load_order(decl_ids(room), dep_table(room)))
                &&& r matches Ok(o) ==> is_topological_order(decl_ids(room), dep_table(room), o.deep_view())
                &&& r matches Ok(o) ==> is_greedy_order(decl_ids(room), dep_table(room), o.deep_view())
                &&& r matches Err(e) ==> (e is DependencyNotMet || e is CircularDependency)
                &&& r matches Err(EngineError::CircularDependency { cycle }) ==> exists|o: Seq<Seq<char>>|
                    #[trigger] is_stuck_order(decl_ids(room), dep_table(room), o)
                    && cycle@ == blocked_cycle_text(dep_table(room), decl_ids(room), o)
            }),
    {
        let ghost enabled = enabled_extensions.deep_view();
        let ghost all = self.datatypes@;
        let mut room: Vec<&DatatypeDeclaration> = Vec::new();
        let mut i: usize = 0;
        while i < self.datatypes.len()
            invariant
                i <= all.len(),
                all == self.datatypes@,
                enabled == enabled_extensions.deep_view(),
                room@.map_values(|d: &DatatypeDeclaration| *d) == room_decls(all.take(i as int), enabled),
            decreases all.len() - i,
        {
            let d = &self.datatypes[i];
            proof {
                assert(all.take(i + 1).drop_last() == all.take(i as int));
                assert(all.take(i + 1).last() == all[i as int]);
            }
            let ghost before = room@;
            if d.is_builtin || contains_slice(enabled_extensions, &d.id) {
                room.push(d);
                assert(room@.map_values(|d: &DatatypeDeclaration| *d) =~= before.map_values(|d: &DatatypeDeclaration| *d).push(*d));
            }
            i = i + 1;
        }
        assert(all.take(all.len() as int) == all);
        let ghost rv = room_decls(all, enabled);
        assert(room@.map_values(|d: &DatatypeDeclaration| *d) == rv);
        let ghost room_ids = decl_ids(rv);
        let mut ids: Vec<String> = Vec::new();
        let mut j: usize = 0;
        while j < room.len()
            invariant
                j <= room@.len(),
                rv == room@.map_values(|d: &DatatypeDeclaration| *d),
                ids@.len() == j,
                forall|k: int| 0 <= k < j ==> ids@[k]@ == rv[k].id@,
            decreases room@.len() - j,
        {
            assert(rv[j as int] == *room@[j as int]);
            ids.push(copy_str(&room[j].id));
            j = j + 1;
        }
        assert(ids.deep_view() =~= room_ids);
        let mut a: usize = 0;
        while a < room.len()
            invariant
                a <= room@.len(),
                rv == room@.map_values(|d: &DatatypeDeclaration| *d),
                rv == room_decls(self.decls(), enabled_extensions.deep_view()),
                ids.deep_view() == room_ids,
                room_ids == decl_ids(rv),
                forall|x: int, k: int| 0 <= x < a && 0 <= k < rv[x].dependencies@.len() ==> room_ids.contains(rv[x].dependencies@[k]@),
            decreases room@.len() - a,
        {
            let d = room[a];
            assert(rv[a as int] == *d);
            let mut k: usize = 0;
            while k < d.dependencies.len()
                invariant
                    a < room@.len(),
                    rv == room@.map_values(|d: &DatatypeDeclaration| *d),
                    rv == room_decls(self.decls(), enabled_extensions.deep_view()),
                    k <= d.dependencies@.len(),
                    rv[a as int] == *d,
                    ids.deep_view() == room_ids,
                    room_ids == decl_ids(rv),
                    forall|x: int, m: int| 0 <= x < a && 0 <= m < rv[x].dependencies@.len() ==> room_ids.contains(rv[x].dependencies@[m]@),
                    forall|m: int| 0 <= m < k ==> room_ids.contains(d.dependencies@[m]@),
                decreases d.dependencies@.len() - k,
            {
                if !contains_str(&ids, &d.dependencies[k]) {
                    proof {
                        let ai = a as int;
                        let ki = k as int;
                        assert(0 <= ai < rv.len() && 0 <= ki < rv[ai].dependencies@.len() && {
                            &&& rv[ai].id@ == d.id@
                            &&& rv[ai].dependencies@[ki]@ == d.dependencies@[ki]@
                            &&& !decl_ids(rv).contains(d.dependencies@[ki]@)
                        });
                        assert(unmet_dependency(rv, d.id@, d.dependencies@[k as int]@));
                    }
                    return Err(EngineError::DependencyNotMet {
                        ext: copy_str(&d.id),
                        requires: copy_str(&d.dependencies[k]),
                    });
                }
                k = k + 1;
            }
            a = a + 1;
        }
        proof {
            if exists|e: Seq<char>, d: Seq<char>| unmet_dependency(rv, e, d) {
                let (e, d) = choose|e: Seq<char>, d: Seq<char>| unmet_dependency(rv, e, d);
                let (x, k) = choose|x: int, k: int| 0 <= x < rv.len() && 0 <= k < rv[x].dependencies@.len() && {
                    &&& rv[x].id@ == e
                    &&& rv[x].dependencies@[k]@ == d
                    &&& !decl_ids(rv).contains(d)
                };
                assert(room_ids.contains(rv[x].dependencies@[k]@));
            }
        }
        let mut decls: Vec<&DatatypeDeclaration> = room;
        let (ids2, deps) = table_of_refs(decls.as_slice());
        let is = ids2.as_slice();
        let ds = deps.as_slice();
        proof {
            assert(is.deep_view() =~= ids2.deep_view());
            assert(ds.deep_view() =~= deps.deep_view());
        }
        let r = resolve_load_order(is, ds);
        proof {
            if let Err(EngineError::CircularDependency { cycle }) = &r {
                let o = choose|o: Seq<Seq<char>>| #[trigger] is_stuck_order(is.deep_view(), ds.deep_view(), o)
                    && cycle@ == blocked_cycle_text(ds.deep_view(), is.deep_view(), o);
                assert(is_stuck_order(is.deep_view(), ds.deep_view(), o));
            }
        }
        r
    }
}

impl Default for DatatypeRegistry {
    /// An empty registry.
    fn default() -> (r: DatatypeRegistry)
        ensures
            r.decls().len() == 0,
    {
        DatatypeRegistry::new()
    }
}

/// Whether `v` holds a string equal to `x`.
fn contains_slice(v: &[String], x: &str) -> (r: bool)
    ensures
        r == v.deep_view().contains(x@),
{
    let mut i: usize = 0;
    while i < v.len()
        invariant
            i <= v@.len(),
            forall|k: int| 0 <= k < i ==> v.deep_view()[k] != x@,
        decreases v@.len() - i,
    {
        if crate::text::str_eq(&v[i], x) {
            assert(v.deep_view()[i as int] == x@);
            return true;
        }
        i = i + 1;
    }
    false
}

/// Copies of the strings of `v`.
fn copy_strings(v: &Vec<String>) -> (r: Vec<String>)
    ensures
        r.deep_view() == v.deep_view(),
{
    let mut r: Vec<String> = Vec::new();
    let mut i: usize = 0;
    while i < v.len()
        invariant
            i <= v@.len(),
            r@.len() == i,
            forall|k: int| 0 <= k < i ==> r@[k]@ == v@[k]@,
        decreases v@.len() - i,
    {
        r.push(copy_str(&v[i]));
        i = i + 1;
    }
    assert(r.deep_view() =~= v.deep_view());
    r
}

/// The ids and the dependency table of `decls`.
fn table_of(decls: &[DatatypeDeclaration]) -> (r: (Vec<String>, Vec<(String, Vec<String>)>))
    ensures
        r.0.deep_view() == decl_ids(decls@),
        r.1.deep_view() == dep_table(decls@),
{
    let mut ids: Vec<String> = Vec::new();
    let mut deps: Vec<(String, Vec<String>)> = Vec::new();
    let mut i: usize = 0;
    while i < decls.len()
        invariant
            i <= decls@.len(),
            ids@.len() == i,
            deps@.len() == i,
            forall|k: int| 0 <= k < i ==> ids@[k]@ == decls@[k].id@,
            forall|k: int| 0 <= k < i ==> deps@[k].0@ == decls@[k].id@
                && deps@[k].1.deep_view() == decls@[k].dependencies.deep_view(),
        decreases decls@.len() - i,
    {
        ids.push(copy_str(&decls[i].id));
        deps.push((copy_str(&decls[i].id), copy_strings(&decls[i].dependencies)));
        i = i + 1;
    }
    assert(ids.deep_view() =~= decl_ids(decls@));
    assert(deps.deep_view() =~= dep_table(decls@));
    (ids, deps)
}

/// The ids and the dependency table of the declarations `decls` refers to.
fn table_of_refs(decls: &[&DatatypeDeclaration]) -> (r: (Vec<String>, Vec<(String, Vec<String>)>))
    ensures
        r.0.deep_view() == decl_ids(decls@.map_values(|d: &DatatypeDeclaration| *d)),
        r.1.deep_view() == dep_table(decls@.map_values(|d: &DatatypeDeclaration| *d)),
{
    let ghost dv = decls@.map_values(|d: &DatatypeDeclaration| *d);
    let mut ids: Vec<String> = Vec::new();
    let mut deps: Vec<(String, Vec<String>)> = Vec::new();
    let mut i: usize = 0;
    while i < decls.len()
        invariant
            dv == decls@.map_values(|d: &DatatypeDeclaration| *d),
            i <= decls@.len(),
            ids@.len() == i,
            deps@.len() == i,
            forall|k: int| 0 <= k < i ==> ids@[k]@ == dv[k].id@,
            forall|k: int| 0 <= k < i ==> deps@[k].0@ == dv[k].id@
                && deps@[k].1.deep_view() == dv[k].dependencies.deep_view(),
        decreases decls@.len() - i,
    {
        assert(dv[i as int] == *decls@[i as int]);
        ids.push(copy_str(&decls[i].id));
        deps.push((copy_str(&decls[i].id), copy_strings(&decls[i].dependencies)));
        i = i + 1;
    }
    assert(ids.deep_view() =~= decl_ids(dv));
    assert(deps.deep_view() =~= dep_table(dv));
    (ids, deps)
}

} // verus!
