//! Sync decisions: comparing state vectors, queueing updates while
//! disconnected, and choosing the best of several sources.
use vstd::prelude::*;
use crate::index::whole_secs;

verus! {

/// The sync direction after comparing local and remote state vectors.
#[derive(Debug, Clone, Copy, PartialEq, Eq, Structural)]
pub enum SyncDecision {
    /// Both states are equal.
    UpToDate,
    /// The remote side has data the local side lacks.
    NeedRemoteState,
    /// The local side has data the remote side lacks.
    SendLocalState,
    /// Both sides have updates of their own.
    BidirectionalSync,
}

/// The decision for a pair of state vectors: equal bytes need nothing; an
/// empty side receives from the other; two different non-empty ones sync
/// both ways.
pub open spec fn sync_decision(local: Seq<u8>, remote: Seq<u8>) -> SyncDecision {
    if local == remote {
        SyncDecision::UpToDate
    } else if local.len() == 0 {
        SyncDecision::NeedRemoteState
    } else if remote.len() == 0 {
        SyncDecision::SendLocalState
    } else {
        SyncDecision::BidirectionalSync
    }
}

/// Whether two byte slices are equal.
fn bytes_eq(a: &[u8], b: &[u8]) -> (r: bool)
    ensures
        r == (a@ == b@),
{
    if a.len() != b.len() {
        return false;
    }
    let mut i: usize = 0;
    while i < a.len()
        invariant
            a@.len() == b@.len(),
            i <= a@.len(),
            forall|k: int| 0 <= k < i ==> a@[k] == b@[k],
        decreases a@.len() - i,
    {
        if a[i] != b[i] {
            return false;
        }
        i = i + 1;
    }
    assert(a@ =~= b@);
    true
}

/// Compares two state vectors to decide the sync direction.
pub fn compare_state_vectors(local_sv: &[u8], remote_sv: &[u8]) -> (d: SyncDecision)
    ensures
        d == sync_decision(local_sv@, remote_sv@),
{
    if local_sv.len() == 0 && remote_sv.len() == 0 {
        assert(local_sv@ =~= remote_sv@);
    }
    if bytes_eq(local_sv, remote_sv) {
        SyncDecision::UpToDate
    } else if local_sv.len() == 0 && remote_sv.len() != 0 {
        SyncDecision::NeedRemoteState
    } else if local_sv.len() != 0 && remote_sv.len() == 0 {
        SyncDecision::SendLocalState
    } else {
        SyncDecision::BidirectionalSync
    }
}

/// The position of the response with the longest state vector; the last
/// of them when several are equally long.
pub open spec fn best_source_index(responses: Seq<(String, Vec<u8>)>) -> int {
    choose|i: int| is_best_source(responses, i)
}

/// Response `i` has a longest state vector, and every later one is shorter.
pub open spec fn is_best_source(responses: Seq<(String, Vec<u8>)>, i: int) -> bool {
    &&& 0 <= i < responses.len()
    &&& forall|j: int| 0 <= j < responses.len() ==> responses[j].1@.len() <= responses[i].1@.len()
    &&& forall|j: int| i < j < responses.len() ==> responses[j].1@.len() < responses[i].1@.len()
}

/// The source whose state vector is longest (the last of equally long
/// ones), as the most complete; `None` for no responses.
pub fn select_best_source(responses: &[(String, Vec<u8>)]) -> (r: Option<String>)
    ensures
        responses@.len() == 0 ==> r is None,
        responses@.len() > 0 ==> (r matches Some(s) && s@ == responses@[best_source_index(responses@)].0@),
{
    if responses.len() == 0 {
        return None;
    }
    let mut best: usize = 0;
    let mut i: usize = 1;
    while i < responses.len()
        invariant
            1 <= i <= responses@.len(),
            best < i,
            forall|j: int| 0 <= j < i ==> responses@[j].1@.len() <= responses@[best as int].1@.len(),
            forall|j: int| best < j < i ==> responses@[j].1@.len() < responses@[best as int].1@.len(),
        decreases responses@.len() - i,
    {
        if responses[i].1.len() >= responses[best].1.len() {
            best = i;
        }
        i = i + 1;
    }
    proof {
        assert(is_best_source(responses@, best as int));
        let c = best_source_index(responses@);
        assert(is_best_source(responses@, c));
        if c < best {
            assert(responses@[best as int].1@.len() < responses@[c].1@.len());
        } else if c > best {
            assert(responses@[c].1@.len() < responses@[best as int].1@.len());
        }
    }
    Some(crate::text::copy_str(&responses[best].0))
}

/// A queued update and when it was queued.
pub struct PendingUpdate<E> {
    pub doc_id: String,
    pub envelope: E,
    /// Milliseconds since the Unix epoch.
    pub queued_at: i64,
}

/// Updates queued while disconnected, delivered in arrival order on
/// reconnection.
pub struct PendingQueue<E> {
    updates: Vec<PendingUpdate<E>>,
}

#[verifier::external_type_specification]
#[verifier::external_body]
pub struct ExSystemTime(std::time::SystemTime);

/// `SystemTime::now`: a reading of the system clock.
#[verifier::external_body]
fn system_now() -> (t: std::time::SystemTime) {
    std::time::SystemTime::now()
}

/// `SystemTime::duration_since(UNIX_EPOCH)`: the time since the Unix
/// epoch, `None` for a reading before it.
#[verifier::external_body]
fn since_unix_epoch(t: &std::time::SystemTime) -> (d: Option<std::time::Duration>) {
    t.duration_since(std::time::UNIX_EPOCH).ok()
}

/// `Duration::subsec_nanos`: the nanoseconds of `d` past its whole
/// seconds, always below one billion.
#[verifier::external_body]
fn subsec_nanos(d: &std::time::Duration) -> (n: u32)
    ensures
        n < 1_000_000_000,
{
    d.subsec_nanos()
}

/// The current time since the Unix epoch, as whole seconds and the
/// nanoseconds past them; `(0, 0)` for a clock before the epoch.
pub(crate) fn unix_time() -> (t: (u64, u32))
    ensures
        t.1 < 1_000_000_000,
{
    let now = system_now();
    match since_unix_epoch(&now) {
        Some(d) => (whole_secs(&d), subsec_nanos(&d)),
        None => (0, 0),
    }
}

/// `Duration::as_millis`: the whole milliseconds of `d`.
#[verifier::external_body]
fn whole_millis(d: &std::time::Duration) -> (m: u128) {
    d.as_millis()
}

/// The current time in milliseconds since the Unix epoch (0 for a clock
/// before the epoch), cut to 64 bits.
pub(crate) fn unix_millis() -> (t: i64) {
    let now = system_now();
    let m: u128 = match since_unix_epoch(&now) {
        Some(d) => whole_millis(&d),
        None => 0,
    };
    #[verifier::truncate]
    (m as i64)
}

impl<E> PendingQueue<E> {
    /// The queued updates, oldest first.
    pub closed spec fn items(&self) -> Seq<PendingUpdate<E>> {
        self.updates@
    }

    /// An empty queue.
    pub fn new() -> (q: PendingQueue<E>)
        ensures
            q.items().len() == 0,
    {
        PendingQueue { updates: Vec::new() }
    }

    /// Queues an update, stamped with the current time.
    pub fn enqueue(&mut self, doc_id: String, envelope: E)
        ensures
            final(self).items().len() == old(self).items().len() + 1,
            final(self).items().drop_last() == old(self).items(),
            final(self).items().last().doc_id == doc_id,
            final(self).items().last().envelope == envelope,
    {
        let queued_at = unix_millis();
        self.enqueue_at(doc_id, envelope, queued_at);
    }

    /// Queues an update queued at `queued_at`.
    pub fn enqueue_at(&mut self, doc_id: String, envelope: E, queued_at: i64)
        ensures
            final(self).items() == old(self).items().push(PendingUpdate { doc_id, envelope, queued_at }),
    {
        self.updates.push(PendingUpdate { doc_id, envelope, queued_at });
    }

    /// All queued updates, oldest first; the queue is left empty.
    pub fn drain(&mut self) -> (r: Vec<PendingUpdate<E>>)
        ensures
            r@ == old(self).items(),
            final(self).items().len() == 0,
    {
        let mut v: Vec<PendingUpdate<E>> = Vec::new();
        std::mem::swap(&mut v, &mut self.updates);
        v
    }

    /// The number of queued updates.
    pub fn len(&self) -> (n: usize)
        ensures
            n == self.items().len(),
    {
        self.updates.len()
    }

    /// Whether nothing is queued.
    pub fn is_empty(&self) -> (b: bool)
        ensures
            b == (self.items().len() == 0),
    {
        self.updates.len() == 0
    }
}

impl<E> Default for PendingQueue<E> {
    /// An empty queue.
    fn default() -> (q: PendingQueue<E>)
        ensures
            q.items().len() == 0,
    {
        PendingQueue::new()
    }
}

} // verus!
