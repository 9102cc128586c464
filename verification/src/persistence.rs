//! Update bookkeeping of the persistent document store: how many updates
//! each document has pending since its last snapshot, when a snapshot
//! compaction is due, and how the counts are rebuilt when the store opens.
use vstd::prelude::*;
use crate::store::{entries_map, entry_lookup, find_key, first_index, keys_distinct, put_entry};
use crate::text::copy_str;

verus! {

/// Number of pending updates at which a snapshot compaction is due.
pub const SNAPSHOT_THRESHOLD: u64 = 100;

/// A snapshot compaction is due once `count` pending updates have
/// accumulated.
pub open spec fn snapshot_due(count: u64) -> bool {
    count >= SNAPSHOT_THRESHOLD
}

/// Whether `count` pending updates call for a snapshot compaction.
pub fn needs_snapshot(count: u64) -> (r: bool)
    ensures
        r == snapshot_due(count),
{
    count >= SNAPSHOT_THRESHOLD
}

/// The counts taken from the pending-update queues: each queue sets the
/// count of its document to its length, a later queue of the same document
/// replacing an earlier one.
pub open spec fn pending_counts(pending: Seq<(Seq<char>, u64)>) -> Map<Seq<char>, u64>
    decreases pending.len(),
{
    if pending.len() == 0 {
        Map::empty()
    } else {
        let last = pending.last();
        pending_counts(pending.drop_last()).insert(last.0, last.1)
    }
}

/// `base` completed by the counts recorded in the metadata: a document that
/// already has a count keeps it, and a document's first metadata record wins.
pub open spec fn with_meta_counts(base: Map<Seq<char>, u64>, meta: Seq<(Seq<char>, u64)>) -> Map<Seq<char>, u64>
    decreases meta.len(),
{
    if meta.len() == 0 {
        base
    } else {
        let last = meta.last();
        let earlier = with_meta_counts(base, meta.drop_last());
        if earlier.contains_key(last.0) {
            earlier
        } else {
            earlier.insert(last.0, last.1)
        }
    }
}

/// The (document id, count) pairs of keyed entries.
pub open spec fn pairs_view(entries: Seq<(String, u64)>) -> Seq<(Seq<char>, u64)> {
    entries.map_values(|e: (String, u64)| (e.0@, e.1))
}

/// The number of updates each document has pending since its last
/// snapshot.
pub struct UpdateCounts {
    counts: Vec<(String, u64)>,
}

impl View for UpdateCounts {
    type V = Map<Seq<char>, u64>;

    /// The documents that have a count, with that count.
    closed spec fn view(&self) -> Map<Seq<char>, u64> {
        entries_map(self.counts@)
    }
}

impl UpdateCounts {
    /// Each document has one count.
    #[verifier::type_invariant]
    spec fn keyed_once(self) -> bool {
        keys_distinct(self.counts@)
    }

    /// The count of `doc`, 0 for a document without one.
    pub open spec fn count(&self, doc: Seq<char>) -> u64 {
        count_in(self@, doc)
    }

    /// No document has a count.
    pub fn new() -> (s: UpdateCounts)
        ensures
            s@ == Map::<Seq<char>, u64>::empty(),
    {
        let s = UpdateCounts { counts: Vec::new() };
        proof {
            reveal(entry_lookup);
            reveal(first_index);
            assert(s@ =~= Map::<Seq<char>, u64>::empty());
        }
        s
    }

    /// The number of updates `doc_id` has pending (0 when it has no count).
    pub fn pending_update_count(&self, doc_id: &str) -> (c: u64)
        ensures
            c == self.count(doc_id@),
    {
        match find_key(&self.counts, doc_id) {
            Some(p) => {
                proof { reveal(entry_lookup); }
                self.counts[p].1
            },
            None => {
                proof { reveal(entry_lookup); }
                0
            },
        }
    }

    /// Whether `doc_id` has a count.
    pub fn has_count(&self, doc_id: &str) -> (b: bool)
        ensures
            b == self@.contains_key(doc_id@),
    {
        proof { reveal(entry_lookup); }
        find_key(&self.counts, doc_id).is_some()
    }

    /// Sets the count of `doc_id` to `count`.
    pub fn set_count(&mut self, doc_id: &str, count: u64)
        ensures
            final(self)@ == old(self)@.insert(doc_id@, count),
    {
        proof { use_type_invariant(&*self); }
        let mut counts: Vec<(String, u64)> = Vec::new();
        std::mem::swap(&mut counts, &mut self.counts);
        let ghost before = counts@;
        put_entry(&mut counts, copy_str(doc_id), count);
        proof {
            assert(entries_map(counts@) =~= entries_map(before).insert(doc_id@, count));
        }
        self.counts = counts;
    }

    /// Sets the count of `doc_id` to `count` unless it already has one.
    pub fn set_if_absent(&mut self, doc_id: &str, count: u64)
        ensures
            final(self)@ == if old(self)@.contains_key(doc_id@) {
                old(self)@
            } else {
                old(self)@.insert(doc_id@, count)
            },
    {
        if !self.has_count(doc_id) {
            self.set_count(doc_id, count);
        }
    }

    /// Counts one more update of `doc_id` and returns its new count.
    pub fn record_update(&mut self, doc_id: &str) -> (new_count: u64)
        requires
            old(self).count(doc_id@) < u64::MAX,
        ensures
            new_count == old(self).count(doc_id@) + 1,
            final(self)@ == old(self)@.insert(doc_id@, new_count),
    {
        let c = self.pending_update_count(doc_id);
        let n = c + 1;
        self.set_count(doc_id, n);
        n
    }

    /// Whether `doc_id` has enough pending updates for a snapshot
    /// compaction.
    pub fn snapshot_due_for(&self, doc_id: &str) -> (b: bool)
        ensures
            b == snapshot_due(self.count(doc_id@)),
    {
        needs_snapshot(self.pending_update_count(doc_id))
    }

    /// Clears the count of `doc_id` after its pending updates were merged
    /// into a snapshot.
    pub fn reset(&mut self, doc_id: &str)
        ensures
            final(self)@ == old(self)@.insert(doc_id@, 0),
    {
        self.set_count(doc_id, 0);
    }
}

/// The counts a store starts with: the length of each document's
/// pending-update queue (`pending`, in the order the queues are read),
/// then, for documents without a queue, the count recorded in their
/// metadata (`meta`, in the order it is read).
pub fn recovered_counts(pending: &Vec<(String, u64)>, meta: &Vec<(String, u64)>) -> (r: UpdateCounts)
    ensures
        r@ == with_meta_counts(pending_counts(pairs_view(pending@)), pairs_view(meta@)),
{
    let mut r = UpdateCounts::new();
    let mut i: usize = 0;
    while i < pending.len()
        invariant
            i <= pending@.len(),
            r@ == pending_counts(pairs_view(pending@).take(i as int)),
        decreases pending@.len() - i,
    {
        r.set_count(pending[i].0.as_str(), pending[i].1);
        proof {
            let s = pairs_view(pending@);
            assert(s.take(i as int + 1).drop_last() =~= s.take(i as int));
        }
        i = i + 1;
    }
    proof { assert(pairs_view(pending@).take(pending@.len() as int) =~= pairs_view(pending@)); }
    let ghost base = r@;
    let mut j: usize = 0;
    while j < meta.len()
        invariant
            j <= meta@.len(),
            r@ == with_meta_counts(base, pairs_view(meta@).take(j as int)),
        decreases meta@.len() - j,
    {
        r.set_if_absent(meta[j].0.as_str(), meta[j].1);
        proof {
            let s = pairs_view(meta@);
            assert(s.take(j as int + 1).drop_last() =~= s.take(j as int));
        }
        j = j + 1;
    }
    proof { assert(pairs_view(meta@).take(meta@.len() as int) =~= pairs_view(meta@)); }
    r
}

/// The count of `doc` in `counts`, 0 when it has none.
pub open spec fn count_in(counts: Map<Seq<char>, u64>, doc: Seq<char>) -> u64 {
    if counts.contains_key(doc) { counts[doc] } else { 0 }
}

/// The counts after one more update of `doc` and the snapshot decision that
/// follows it: the count goes up by one and, once a snapshot is due, back
/// to 0.
pub open spec fn after_update(counts: Map<Seq<char>, u64>, doc: Seq<char>) -> Map<Seq<char>, u64> {
    let n = (count_in(counts, doc) + 1) as u64;
    if snapshot_due(n) { counts.insert(doc, 0) } else { counts.insert(doc, n) }
}

/// A document never holds more pending updates than the threshold allows:
/// from any count below it, an update followed by the snapshot decision
/// leaves the count below it again, and the other documents' counts as
/// they were.
pub proof fn lemma_snapshot_bounds_pending(counts: Map<Seq<char>, u64>, doc: Seq<char>)
    requires
        count_in(counts, doc) < SNAPSHOT_THRESHOLD,
    ensures
        count_in(after_update(counts, doc), doc) < SNAPSHOT_THRESHOLD,
        forall|d: Seq<char>| d != doc ==> #[trigger] count_in(after_update(counts, doc), d) == count_in(counts, d),
{
}

} // verus!
