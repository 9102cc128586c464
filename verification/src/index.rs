//! The index builder: derived views of data entries and when each is due
//! for recomputation.
use vstd::prelude::*;
use std::time::Instant;
use crate::registry::datatype::{IndexDeclaration, RefreshStrategy};
use crate::text::str_eq;

verus! {

#[verifier::external_type_specification]
#[verifier::external_body]
pub struct ExInstant(Instant);

/// `Instant::now`: a reading of the monotonic clock.
#[verifier::external_body]
fn instant_now() -> (t: Instant) {
    Instant::now()
}

/// `Instant::duration_since`: the time from `earlier` to `later` (zero
/// when `earlier` is later, in the std version used here).
#[verifier::external_body]
fn duration_between(earlier: &Instant, later: &Instant) -> (d: std::time::Duration) {
    later.duration_since(*earlier)
}

/// `Duration::as_secs`: the whole seconds of `d`.
#[verifier::external_body]
pub(crate) fn whole_secs(d: &std::time::Duration) -> (s: u64) {
    d.as_secs()
}

/// Whole seconds from `earlier` to `later`.
fn seconds_between(earlier: &Instant, later: &Instant) -> (s: u64) {
    let d = duration_between(earlier, later);
    whole_secs(&d)
}

/// An index and when it was last recomputed (never, for `None`).
#[derive(Debug)]
pub struct IndexEntry {
    pub declaration: IndexDeclaration,
    pub last_refresh: Option<Instant>,
}

/// Whether an index is due: always on change, never on demand, and
/// periodically once never refreshed or `interval_secs` have passed.
pub open spec fn due(strategy: RefreshStrategy, elapsed_secs: Option<u64>) -> bool {
    match strategy {
        RefreshStrategy::OnChange => true,
        RefreshStrategy::OnDemand => false,
        RefreshStrategy::Periodic { interval_secs } => match elapsed_secs {
            None => true,
            Some(e) => e >= interval_secs,
        },
    }
}

/// Whether an index with `strategy`, last refreshed `elapsed_secs` seconds
/// ago (never, for `None`), is due.
pub fn refresh_due(strategy: RefreshStrategy, elapsed_secs: Option<u64>) -> (b: bool)
    ensures
        b == due(strategy, elapsed_secs),
{
    match strategy {
        RefreshStrategy::OnChange => true,
        RefreshStrategy::OnDemand => false,
        RefreshStrategy::Periodic { interval_secs } => match elapsed_secs {
            None => true,
            Some(e) => e >= interval_secs,
        },
    }
}

/// `picked` are the entries at positions `pos` of `entries`, in order, and
/// a position is picked exactly when its entry is due (see `due`) given
/// `elapsed[i]`, the whole seconds since entry `i` was last refreshed as the
/// clock read them (`None` exactly for an entry never refreshed).
pub open spec fn is_refresh_selection(
    entries: Seq<IndexEntry>,
    picked: Seq<&IndexEntry>,
    pos: Seq<int>,
    elapsed: Seq<Option<u64>>,
) -> bool {
    &&& elapsed.len() == entries.len()
    &&& forall|i: int| 0 <= i < entries.len() ==> ((#[trigger] elapsed[i]) is None <==> entries[i].last_refresh is None)
    &&& pos.len() == picked.len()
    &&& forall|k: int| 0 <= k < pos.len() ==> 0 <= #[trigger] pos[k] < entries.len() && *picked[k] == entries[pos[k]]
    &&& forall|a: int, b: int| 0 <= a < b < pos.len() ==> #[trigger] pos[a] < #[trigger] pos[b]
    &&& forall|i: int| 0 <= i < entries.len() ==> (pos.contains(i) <==> due(#[trigger] entries[i].declaration.refresh, elapsed[i]))
}

/// The index entries, registered in order.
pub struct IndexBuilder {
    indexes: Vec<IndexEntry>,
}

/// The position of the first entry with id `id`.
pub open spec fn first_with_id(entries: Seq<IndexEntry>, id: Seq<char>) -> Option<int> {
    if exists|i: int| 0 <= i < entries.len() && entries[i].declaration.id@ == id {
        Some(choose|i: int| 0 <= i < entries.len() && entries[i].declaration.id@ == id
            && forall|j: int| 0 <= j < i ==> entries[j].declaration.id@ != id)
    } else {
        None
    }
}

impl IndexBuilder {
    /// The registered entries, in order.
    pub closed spec fn entries(&self) -> Seq<IndexEntry> {
        self.indexes@
    }

    /// No indexes.
    pub fn new() -> (b: IndexBuilder)
        ensures
            b.entries().len() == 0,
    {
        IndexBuilder { indexes: Vec::new() }
    }

    /// Registers an index, never refreshed so far.
    pub fn register(&mut self, decl: IndexDeclaration)
        ensures
            final(self).entries() == old(self).entries().push(IndexEntry { declaration: decl, last_refresh: None }),
    {
        self.indexes.push(IndexEntry { declaration: decl, last_refresh: None });
    }

    /// Position of the first entry with id `id`.
    fn position(&self, id: &str) -> (r: Option<usize>)
        ensures
            match r {
                Some(p) => first_with_id(self.entries(), id@) == Some(p as int) && p < self.entries().len(),
                None => first_with_id(self.entries(), id@) is None,
            },
    {
        let mut i: usize = 0;
        while i < self.indexes.len()
            invariant
                i <= self.indexes@.len(),
                forall|j: int| 0 <= j < i ==> self.indexes@[j].declaration.id@ != id@,
            decreases self.indexes@.len() - i,
        {
            if str_eq(&self.indexes[i].declaration.id, id) {
                proof {
                    let c = choose|c: int| 0 <= c < self.indexes@.len() && self.indexes@[c].declaration.id@ == id@
                        && forall|j: int| 0 <= j < c ==> self.indexes@[j].declaration.id@ != id@;
                    assert(self.indexes@[i as int].declaration.id@ == id@);
                    if c < i {
                    } else if c > i {
                        assert(self.indexes@[i as int].declaration.id@ != id@);
                    }
                }
                return Some(i);
            }
            i = i + 1;
        }
        None
    }

    /// The first entry with id `id`.
    pub fn get(&self, id: &str) -> (r: Option<&IndexEntry>)
        ensures
            match first_with_id(self.entries(), id@) {
                Some(i) => r == Some(&self.entries()[i]),
                None => r is None,
            },
    {
        match self.position(id) {
            Some(i) => Some(&self.indexes[i]),
            None => None,
        }
    }

    /// The entries due for recomputation, in order: every on-change index,
    /// no on-demand index, and each periodic index that was never
    /// refreshed or whose interval has passed by the clock (the whole
    /// seconds since its last refresh reach its interval).
    pub fn indexes_needing_refresh(&self) -> (r: Vec<&IndexEntry>)
        ensures
            exists|pos: Seq<int>, elapsed: Seq<Option<u64>>| #[trigger] is_refresh_selection(self.entries(), r@, pos, elapsed),
    {
        let now = instant_now();
        let mut r: Vec<&IndexEntry> = Vec::new();
        let ghost mut pos: Seq<int> = Seq::empty();
        let ghost mut el: Seq<Option<u64>> = Seq::empty();
        let mut i: usize = 0;
        while i < self.indexes.len()
            invariant
                i <= self.indexes@.len(),
                el.len() == i,
                forall|j: int| 0 <= j < i ==> ((#[trigger] el[j]) is None <==> self.indexes@[j].last_refresh is None),
                pos.len() == r@.len(),
                forall|k: int| 0 <= k < pos.len() ==> 0 <= #[trigger] pos[k] < i && *r@[k] == self.indexes@[pos[k]],
                forall|a: int, b: int| 0 <= a < b < pos.len() ==> #[trigger] pos[a] < #[trigger] pos[b],
                forall|j: int| 0 <= j < i ==> (pos.contains(j) <==> due(#[trigger] self.indexes@[j].declaration.refresh, el[j])),
            decreases self.indexes@.len() - i,
        {
            let e = &self.indexes[i];
            let elapsed = match &e.last_refresh {
                Some(last) => Some(seconds_between(last, &now)),
                None => None,
            };
            let ghost old_pos = pos;
            let ghost old_el = el;
            proof { el = el.push(elapsed); }
            if refresh_due(e.declaration.refresh, elapsed) {
                r.push(e);
                proof {
                    pos = pos.push(i as int);
                    assert forall|j: int| 0 <= j < i + 1 implies (pos.contains(j) <==> due(#[trigger] self.indexes@[j].declaration.refresh, el[j])) by {
                        if j < i {
                            assert(el[j] == old_el[j]);
                            if old_pos.contains(j) {
                                let t = choose|t: int| 0 <= t < old_pos.len() && old_pos[t] == j;
                                assert(pos[t] == j);
                            }
                            if pos.contains(j) {
                                let t = choose|t: int| 0 <= t < pos.len() && pos[t] == j;
                                if t < old_pos.len() {
                                    assert(old_pos[t] == j);
                                }
                            }
                        } else {
                            assert(pos[pos.len() - 1] == j);
                        }
                    }
                }
            } else {
                proof {
                    assert forall|j: int| 0 <= j < i + 1 implies (pos.contains(j) <==> due(#[trigger] self.indexes@[j].declaration.refresh, el[j])) by {
                        if j < i {
                            assert(el[j] == old_el[j]);
                        } else {
                            if pos.contains(j) {
                                let t = choose|t: int| 0 <= t < pos.len() && pos[t] == j;
                                assert(pos[t] < i);
                            }
                        }
                    }
                }
            }
            proof {
                assert forall|j: int| 0 <= j < i + 1 implies ((#[trigger] el[j]) is None <==> self.indexes@[j].last_refresh is None) by {
                    if j < i { assert(el[j] == old_el[j]); }
                }
            }
            i = i + 1;
        }
        assert(is_refresh_selection(self.entries(), r@, pos, el));
        r
    }

    /// Records that the first index with id `id` was just recomputed; no
    /// change when none has that id.
    pub fn mark_refreshed(&mut self, id: &str)
        ensures
            final(self).entries().len() == old(self).entries().len(),
            match first_with_id(old(self).entries(), id@) {
                Some(i) => {
                    &&& final(self).entries()[i].declaration == old(self).entries()[i].declaration
                    &&& final(self).entries()[i].last_refresh is Some
                    &&& forall|j: int| 0 <= j < old(self).entries().len() && j != i ==> final(self).entries()[j] == old(self).entries()[j]
                },
                None => final(self).entries() == old(self).entries(),
            },
    {
        match self.position(id) {
            Some(i) => {
                let now = instant_now();
                let mut entry = self.indexes.remove(i);
                entry.last_refresh = Some(now);
                self.indexes.insert(i, entry);
            },
            None => {},
        }
    }
}

} // verus!
