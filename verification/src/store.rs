//! The engine's in-memory store: rooms, messages, timeline refs and
//! annotations, each kept per room in insertion order.
use vstd::prelude::*;
use crate::builtins::message::MessageContent;
use crate::builtins::room::RoomConfig;
use crate::builtins::timeline::{same_ref, TimelineRef};
use crate::text::{concat2, copy_str, decimal, str_eq, u64_to_decimal};

verus! {

/// The position of the first occurrence of `key` in `keys`.
#[verifier::opaque]
pub open spec fn first_index<K>(keys: Seq<K>, key: K) -> Option<int> {
    if exists|i: int| 0 <= i < keys.len() && keys[i] == key {
        Some(choose|i: int| 0 <= i < keys.len() && keys[i] == key && forall|j: int| 0 <= j < i ==> keys[j] != key)
    } else {
        None
    }
}

/// The keys of keyed lists.
pub open spec fn keys_of<V>(entries: Seq<(String, V)>) -> Seq<Seq<char>> {
    entries.map_values(|e: (String, V)| e.0@)
}


/// The (room, ref) targets of annotation lists.
pub open spec fn targets_of(a: Seq<(String, String, Vec<(String, String)>)>) -> Seq<(Seq<char>, Seq<char>)> {
    a.map_values(|e: (String, String, Vec<(String, String)>)| (e.0@, e.1@))
}

/// `entries` without the pairs keyed `key`.
pub open spec fn without_key(entries: Seq<(Seq<char>, Seq<char>)>, key: Seq<char>) -> Seq<(Seq<char>, Seq<char>)>
    decreases entries.len(),
{
    if entries.len() == 0 {
        Seq::empty()
    } else if entries.last().0 == key {
        without_key(entries.drop_last(), key)
    } else {
        without_key(entries.drop_last(), key).push(entries.last())
    }
}

/// `entries` with the value of the first pair keyed `key` replaced by
/// `value`, or with the pair appended when none has that key.
pub open spec fn with_pair(entries: Seq<(Seq<char>, Seq<char>)>, key: Seq<char>, value: Seq<char>) -> Seq<(Seq<char>, Seq<char>)> {
    if exists|i: int| 0 <= i < entries.len() && entries[i].0 == key {
        let i = choose|i: int| 0 <= i < entries.len() && entries[i].0 == key
            && forall|j: int| 0 <= j < i ==> entries[j].0 != key;
        entries.update(i, (key, value))
    } else {
        entries.push((key, value))
    }
}

/// Which messages `list_messages` returns: up to `limit` messages ending
/// just before the first message with id `before` (or at the end).
pub open spec fn message_window(msgs: Seq<MessageContent>, limit: nat, before: Option<Seq<char>>) -> Seq<MessageContent> {
    let end: int = match before {
        Some(b) => content_position(msgs, b),
        None => msgs.len() as int,
    };
    let start = if end > limit { end - limit } else { 0 };
    msgs.subrange(start, end)
}

/// The position of the first message with id `b`, or the number of messages.
pub open spec fn content_position(msgs: Seq<MessageContent>, b: Seq<char>) -> int {
    if exists|i: int| 0 <= i < msgs.len() && msgs[i].content_id@ == b {
        choose|i: int| 0 <= i < msgs.len() && msgs[i].content_id@ == b
            && forall|j: int| 0 <= j < i ==> msgs[j].content_id@ != b
    } else {
        msgs.len() as int
    }
}

/// The value stored under `key` (the first such entry).
#[verifier::opaque]
pub open spec fn entry_lookup<V>(entries: Seq<(String, V)>, key: Seq<char>) -> Option<V> {
    match first_index(keys_of(entries), key) {
        Some(i) => Some(entries[i].1),
        None => None,
    }
}

/// Keyed entries as a map from key to the value stored under it.
pub open spec fn entries_map<V>(entries: Seq<(String, V)>) -> Map<Seq<char>, V> {
    Map::new(
        |k: Seq<char>| entry_lookup(entries, k) is Some,
        |k: Seq<char>| entry_lookup(entries, k)->0,
    )
}

/// The list kept under `key` (the first such entry), empty when none.
#[verifier::opaque]
pub open spec fn list_lookup<V>(entries: Seq<(String, Vec<V>)>, key: Seq<char>) -> Seq<V> {
    match first_index(keys_of(entries), key) {
        Some(i) => entries[i].1@,
        None => Seq::empty(),
    }
}

/// The annotations kept for (`room_id`, `ref_id`), empty when none.
#[verifier::opaque]
pub open spec fn annotation_lookup(a: Seq<(String, String, Vec<(String, String)>)>, room_id: Seq<char>, ref_id: Seq<char>) -> Seq<(Seq<char>, Seq<char>)> {
    match first_index(targets_of(a), (room_id, ref_id)) {
        Some(i) => a[i].2.deep_view(),
        None => Seq::empty(),
    }
}

/// No two entries share a key.
pub open spec fn keys_distinct<V>(entries: Seq<(String, V)>) -> bool {
    forall|i: int, j: int| 0 <= i < j < entries.len() ==> entries[i].0@ != entries[j].0@
}

/// Rooms, messages, timeline refs and annotations.
pub struct EngineStore {
    rooms: Vec<(String, RoomConfig)>,
    messages: Vec<(String, Vec<MessageContent>)>,
    timeline_refs: Vec<(String, Vec<TimelineRef>)>,
    annotations: Vec<(String, String, Vec<(String, String)>)>,
}

impl EngineStore {
    /// Each room id is stored once.
    #[verifier::type_invariant]
    spec fn rooms_keyed_once(self) -> bool {
        keys_distinct(self.rooms@)
    }

    /// The stored rooms, in storage order.
    pub closed spec fn room_list(&self) -> Seq<RoomConfig> {
        self.rooms@.map_values(|e: (String, RoomConfig)| e.1)
    }

    /// The ids the stored rooms are kept under, in storage order.
    pub closed spec fn room_keys(&self) -> Seq<Seq<char>> {
        keys_of(self.rooms@)
    }

    /// The room with id `id`.
    pub closed spec fn room(&self, id: Seq<char>) -> Option<RoomConfig> {
        entry_lookup(self.rooms@, id)
    }

    /// The messages of a room, oldest first.
    pub closed spec fn messages_of(&self, room_id: Seq<char>) -> Seq<MessageContent> {
        list_lookup(self.messages@, room_id)
    }

    /// The timeline refs of a room, oldest first.
    pub closed spec fn refs_of(&self, room_id: Seq<char>) -> Seq<TimelineRef> {
        list_lookup(self.timeline_refs@, room_id)
    }

    /// The annotations of a ref in a room, as (key, value) pairs.
    pub closed spec fn annotations_of(&self, room_id: Seq<char>, ref_id: Seq<char>) -> Seq<(Seq<char>, Seq<char>)> {
        annotation_lookup(self.annotations@, room_id, ref_id)
    }

    /// An empty store.
    pub fn new() -> (s: EngineStore)
        ensures
            s.room_list().len() == 0,
            forall|r: Seq<char>| #[trigger] s.room(r) is None,
            forall|r: Seq<char>| (#[trigger] s.messages_of(r)).len() == 0,
            forall|r: Seq<char>| (#[trigger] s.refs_of(r)).len() == 0,
            forall|r: Seq<char>, f: Seq<char>| (#[trigger] s.annotations_of(r, f)).len() == 0,
    {
        let s = EngineStore { rooms: Vec::new(), messages: Vec::new(), timeline_refs: Vec::new(), annotations: Vec::new() };
        proof {
            reveal(entry_lookup);
            reveal(list_lookup);
            reveal(annotation_lookup);
            reveal(first_index);
        }
        s
    }
}

/// Appending a different key leaves the first position of `r` unchanged.
pub proof fn lemma_first_index_push_other<K>(ks: Seq<K>, k: K, r: K)
    requires
        r != k,
    ensures
        first_index(ks.push(k), r) == first_index(ks, r),
{
    reveal(first_index);
    let ks2 = ks.push(k);
    if exists|i: int| 0 <= i < ks.len() && ks[i] == r {
        let c = choose|i: int| 0 <= i < ks.len() && ks[i] == r && forall|j: int| 0 <= j < i ==> ks[j] != r;
        lemma_first_exists(ks, r);
        assert(ks2[c] == r);
        let c2 = choose|i: int| 0 <= i < ks2.len() && ks2[i] == r && forall|j: int| 0 <= j < i ==> ks2[j] != r;
        if c2 < c {
            assert(ks[c2] == r);
        } else if c2 > c {
            assert(ks2[c] != r);
        }
    } else {
        assert forall|i: int| 0 <= i < ks2.len() implies ks2[i] != r by {
            if i < ks.len() {
                assert(ks2[i] == ks[i]);
            }
        }
    }
}

/// Appending a key that does not occur puts its first position at the end.
pub proof fn lemma_first_index_push_new<K>(ks: Seq<K>, k: K)
    requires
        first_index(ks, k) is None,
    ensures
        first_index(ks.push(k), k) == Some(ks.len() as int),
{
    reveal(first_index);
    let ks2 = ks.push(k);
    assert(ks2[ks.len() as int] == k);
    assert forall|j: int| 0 <= j < ks.len() implies ks2[j] != k by {
        assert(ks2[j] == ks[j]);
    }
    let c = choose|i: int| 0 <= i < ks2.len() && ks2[i] == k && forall|j: int| 0 <= j < i ==> ks2[j] != k;
    assert(0 <= ks.len() < ks2.len() && ks2[ks.len() as int] == k && forall|j: int| 0 <= j < ks.len() ==> ks2[j] != k);
    if c < ks.len() {
        assert(ks2[c] == ks[c]);
    }
}

/// When `key` occurs in `ks`, some first occurrence exists.
pub proof fn lemma_first_exists<K>(ks: Seq<K>, key: K)
    requires
        exists|i: int| 0 <= i < ks.len() && ks[i] == key,
    ensures
        exists|c: int| 0 <= c < ks.len() && ks[c] == key && forall|j: int| 0 <= j < c ==> ks[j] != key,
{
    let i = choose|i: int| 0 <= i < ks.len() && ks[i] == key;
    lemma_first_from(ks, key, i);
}

proof fn lemma_first_from<K>(ks: Seq<K>, key: K, i: int)
    requires
        0 <= i < ks.len(),
        ks[i] == key,
    ensures
        exists|c: int| 0 <= c < ks.len() && ks[c] == key && forall|j: int| 0 <= j < c ==> ks[j] != key,
    decreases i,
{
    if exists|j: int| 0 <= j < i && ks[j] == key {
        let j = choose|j: int| 0 <= j < i && ks[j] == key;
        lemma_first_from(ks, key, j);
    }
}

/// The first position of a key, found by scanning.
proof fn lemma_first_index_at<K>(ks: Seq<K>, key: K, p: int)
    requires
        0 <= p < ks.len(),
        ks[p] == key,
        forall|j: int| 0 <= j < p ==> ks[j] != key,
    ensures
        first_index(ks, key) == Some(p),
{
    reveal(first_index);
    let c = choose|i: int| 0 <= i < ks.len() && ks[i] == key && forall|j: int| 0 <= j < i ==> ks[j] != key;
    if c < p {
    } else if c > p {
        assert(ks[p] != key);
    }
}

/// What the first position of a key is.
/// A key that occurs nowhere has no first position.
proof fn lemma_first_index_none<K>(ks: Seq<K>, key: K)
    requires
        forall|i: int| 0 <= i < ks.len() ==> ks[i] != key,
    ensures
        first_index(ks, key) is None,
{
    reveal(first_index);
}

/// What the first position of a key is.
pub proof fn lemma_first_index_props<K>(ks: Seq<K>, key: K)
    ensures
        first_index(ks, key) matches Some(i) ==> 0 <= i < ks.len() && ks[i] == key
            && forall|j: int| 0 <= j < i ==> ks[j] != key,
        first_index(ks, key) is None ==> forall|i: int| 0 <= i < ks.len() ==> ks[i] != key,
{
    reveal(first_index);
    if exists|i: int| 0 <= i < ks.len() && ks[i] == key {
        lemma_first_exists(ks, key);
    }
}

/// The first position of `key` among the keys of `entries`.
pub(crate) fn find_key<V>(entries: &Vec<(String, V)>, key: &str) -> (r: Option<usize>)
    ensures
        match r {
            Some(p) => p < entries@.len() && first_index(keys_of(entries@), key@) == Some(p as int),
            None => first_index(keys_of(entries@), key@) is None,
        },
{
    let ghost ks = keys_of(entries@);
    let mut i: usize = 0;
    while i < entries.len()
        invariant
            ks == keys_of(entries@),
            i <= entries@.len(),
            forall|j: int| 0 <= j < i ==> ks[j] != key@,
        decreases entries@.len() - i,
    {
        assert(ks[i as int] == entries@[i as int].0@);
        if str_eq(&entries[i].0, key) {
            proof { lemma_first_index_at(ks, key@, i as int); }
            return Some(i);
        }
        i = i + 1;
    }
    proof { lemma_first_index_none(ks, key@); }
    None
}

/// The first position of the annotation list of (`room_id`, `ref_id`).
fn find_target(a: &Vec<(String, String, Vec<(String, String)>)>, room_id: &str, ref_id: &str) -> (r: Option<usize>)
    ensures
        match r {
            Some(p) => p < a@.len() && first_index(targets_of(a@), (room_id@, ref_id@)) == Some(p as int),
            None => first_index(targets_of(a@), (room_id@, ref_id@)) is None,
        },
{
    let ghost ks = targets_of(a@);
    let mut i: usize = 0;
    while i < a.len()
        invariant
            ks == targets_of(a@),
            i <= a@.len(),
            forall|j: int| 0 <= j < i ==> ks[j] != (room_id@, ref_id@),
        decreases a@.len() - i,
    {
        assert(ks[i as int] == (a@[i as int].0@, a@[i as int].1@));
        if str_eq(&a[i].0, room_id) && str_eq(&a[i].1, ref_id) {
            proof { lemma_first_index_at(ks, (room_id@, ref_id@), i as int); }
            return Some(i);
        }
        i = i + 1;
    }
    proof { lemma_first_index_none(ks, (room_id@, ref_id@)); }
    None
}

impl EngineStore {
    /// Stores a room under its id, replacing the room stored under that id
    /// if there is one.
    pub fn insert_room(&mut self, config: RoomConfig)
        ensures
            final(self).room(config.room_id@) == Some(config),
            forall|r: Seq<char>| r != config.room_id@ ==> #[trigger] final(self).room(r) == old(self).room(r),
            forall|r: Seq<char>| #[trigger] final(self).messages_of(r) == old(self).messages_of(r),
            forall|r: Seq<char>| #[trigger] final(self).refs_of(r) == old(self).refs_of(r),
            forall|r: Seq<char>, f: Seq<char>| #[trigger] final(self).annotations_of(r, f) == old(self).annotations_of(r, f),
    {
        proof { use_type_invariant(&*self); }
        let mut rooms: Vec<(String, RoomConfig)> = Vec::new();
        std::mem::swap(&mut rooms, &mut self.rooms);
        let key = copy_str(&config.room_id);
        put_entry(&mut rooms, key, config);
        self.rooms = rooms;
    }

    /// The room stored under `room_id`.
    pub fn get_room(&self, room_id: &str) -> (r: Option<&RoomConfig>)
        ensures
            match self.room(room_id@) {
                Some(c) => r == Some(&c),
                None => r is None,
            },
    {
        proof { reveal(entry_lookup); }
        match find_key(&self.rooms, room_id) {
            Some(p) => Some(&self.rooms[p].1),
            None => None,
        }
    }

    /// All stored rooms, each once, in storage order.
    pub fn list_rooms(&self) -> (r: Vec<&RoomConfig>)
        ensures
            r@.len() == self.room_list().len(),
            r@.len() == self.room_keys().len(),
            forall|i: int| 0 <= i < r@.len() ==> *r@[i] == self.room_list()[i],
            forall|i: int| 0 <= i < r@.len() ==> self.room(#[trigger] self.room_keys()[i]) == Some(*r@[i]),
            forall|i: int, j: int| 0 <= i < j < r@.len() ==> self.room_keys()[i] != self.room_keys()[j],
            forall|id: Seq<char>| #[trigger] self.room(id) is Some
                ==> exists|i: int| 0 <= i < r@.len() && self.room_keys()[i] == id,
    {
        proof {
            use_type_invariant(self);
            reveal(entry_lookup);
            let ks = keys_of(self.rooms@);
            assert forall|i: int| 0 <= i < self.rooms@.len() implies
                entry_lookup(self.rooms@, #[trigger] ks[i]) == Some(self.rooms@[i].1) by {
                assert forall|j: int| 0 <= j < i implies ks[j] != ks[i] by {
                    assert(ks[j] == self.rooms@[j].0@);
                }
                lemma_first_index_at(ks, ks[i], i);
            }
            assert forall|id: Seq<char>| #[trigger] entry_lookup(self.rooms@, id) is Some implies
                exists|i: int| 0 <= i < ks.len() && ks[i] == id by {
                lemma_first_index_props(ks, id);
            }
        }
        let mut r: Vec<&RoomConfig> = Vec::new();
        let mut i: usize = 0;
        while i < self.rooms.len()
            invariant
                i <= self.rooms@.len(),
                r@.len() == i,
                forall|k: int| 0 <= k < i ==> *r@[k] == self.rooms@[k].1,
            decreases self.rooms@.len() - i,
        {
            r.push(&self.rooms[i].1);
            i = i + 1;
        }
        r
    }

    /// Replaces the room stored under `room_id` by what `f` makes of it;
    /// whether there was such a room.
    pub fn update_room<F: FnOnce(RoomConfig) -> RoomConfig>(&mut self, room_id: &str, f: F) -> (updated: bool)
        requires
            old(self).room(room_id@) matches Some(c) ==> f.requires((c,)),
        ensures
            updated == old(self).room(room_id@) is Some,
            match old(self).room(room_id@) {
                Some(c) => final(self).room(room_id@) matches Some(c2) && f.ensures((c,), c2),
                None => final(self).room(room_id@) is None,
            },
            forall|r: Seq<char>| r != room_id@ ==> #[trigger] final(self).room(r) == old(self).room(r),
            forall|r: Seq<char>| #[trigger] final(self).messages_of(r) == old(self).messages_of(r),
            forall|r: Seq<char>| #[trigger] final(self).refs_of(r) == old(self).refs_of(r),
            forall|r: Seq<char>, g: Seq<char>| #[trigger] final(self).annotations_of(r, g) == old(self).annotations_of(r, g),
    {
        proof {
            use_type_invariant(&*self);
            reveal(entry_lookup);
        }
        let ghost old_rooms = self.rooms@;
        let ghost ks = keys_of(old_rooms);
        match find_key(&self.rooms, room_id) {
            Some(p) => {
                let mut rooms: Vec<(String, RoomConfig)> = Vec::new();
                std::mem::swap(&mut rooms, &mut self.rooms);
                let (k, c) = rooms.remove(p);
                let c2 = f(c);
                let ghost e = (k, c2);
                rooms.insert(p, (k, c2));
                proof {
                    assert(rooms@ =~= old_rooms.update(p as int, e));
                    lemma_first_index_props(ks, room_id@);
                    lemma_entry_update(old_rooms, p as int, e);
                }
                self.rooms = rooms;
                true
            },
            None => false,
        }
    }

    /// Appends a message to a room's messages.
    pub fn insert_message(&mut self, room_id: &str, content: MessageContent)
        ensures
            final(self).messages_of(room_id@) == old(self).messages_of(room_id@).push(content),
            forall|r: Seq<char>| r != room_id@ ==> #[trigger] final(self).messages_of(r) == old(self).messages_of(r),
            forall|r: Seq<char>| #[trigger] final(self).room(r) == old(self).room(r),
            forall|r: Seq<char>| #[trigger] final(self).refs_of(r) == old(self).refs_of(r),
            forall|r: Seq<char>, f: Seq<char>| #[trigger] final(self).annotations_of(r, f) == old(self).annotations_of(r, f),
    {
        proof { use_type_invariant(&*self); }
        let mut messages: Vec<(String, Vec<MessageContent>)> = Vec::new();
        std::mem::swap(&mut messages, &mut self.messages);
        append_to_list(&mut messages, room_id, content);
        self.messages = messages;
    }

    /// Up to `limit` messages of a room, oldest first, ending just before the
    /// first message with id `before` (at the end without one, or when no
    /// message has that id).
    pub fn list_messages(&self, room_id: &str, limit: usize, before: Option<&str>) -> (r: Vec<&MessageContent>)
        ensures
            ({
                let w = message_window(self.messages_of(room_id@), limit as nat, match before { Some(b) => Some(b@), None => None });
                &&& r@.len() == w.len()
                &&& forall|i: int| 0 <= i < r@.len() ==> *r@[i] == w[i]
            }),
    {
        let p = match find_key(&self.messages, room_id) {
            Some(p) => p,
            None => {
                proof { reveal(list_lookup); }
                return Vec::new();
            },
        };
        let msgs = &self.messages[p].1;
        let ghost mv = msgs@;
        proof { reveal(list_lookup); }
        assert(mv == self.messages_of(room_id@));
        let end: usize = match before {
            Some(b) => position_of_content(msgs, b),
            None => msgs.len(),
        };
        let start: usize = if end > limit { end - limit } else { 0 };
        let mut r: Vec<&MessageContent> = Vec::new();
        let mut k: usize = start;
        while k < end
            invariant
                start <= k <= end <= mv.len(),
                mv == msgs@,
                r@.len() == k - start,
                forall|i: int| 0 <= i < r@.len() ==> *r@[i] == mv[start + i],
            decreases end - k,
        {
            r.push(&msgs[k]);
            k = k + 1;
        }
        r
    }
}

/// Position of the first message with id `id`, or the number of messages.
fn position_of_content(msgs: &Vec<MessageContent>, id: &str) -> (r: usize)
    ensures
        r <= msgs@.len(),
        r == content_position(msgs@, id@),
{
    let ghost mv = msgs@;
    let mut i: usize = 0;
    while i < msgs.len()
        invariant
            i <= mv.len(),
            mv == msgs@,
            forall|j: int| 0 <= j < i ==> mv[j].content_id@ != id@,
        decreases mv.len() - i,
    {
        if str_eq(&msgs[i].content_id, id) {
            proof {
                let c = choose|c: int| 0 <= c < mv.len() && mv[c].content_id@ == id@
                    && forall|j: int| 0 <= j < c ==> mv[j].content_id@ != id@;
                assert(mv[i as int].content_id@ == id@);
                if c < i {
                } else if c > i {
                    assert(mv[i as int].content_id@ != id@);
                }
            }
            return i;
        }
        i = i + 1;
    }
    msgs.len()
}

/// Replacing the entry at the first position of its key keeps keys
/// distinct and leaves the rooms under other keys as they were.
proof fn lemma_entry_update<V>(rooms: Seq<(String, V)>, p: int, e: (String, V))
    requires
        0 <= p < rooms.len(),
        rooms[p].0@ == e.0@,
        keys_distinct(rooms),
    ensures
        keys_distinct(rooms.update(p, e)),
        entry_lookup(rooms.update(p, e), e.0@) == Some(e.1),
        forall|r: Seq<char>| r != e.0@ ==> #[trigger] entry_lookup(rooms.update(p, e), r) == entry_lookup(rooms, r),
{
    reveal(entry_lookup);
    let ks = keys_of(rooms);
    let rs = rooms.update(p, e);
    assert(keys_of(rs) =~= ks);
    assert forall|j: int| 0 <= j < p implies ks[j] != e.0@ by {
        assert(ks[j] == rooms[j].0@);
    }
    lemma_first_index_at(ks, e.0@, p);
    assert forall|i: int, j: int| 0 <= i < j < rs.len() implies rs[i].0@ != rs[j].0@ by {
        assert(rs[i].0@ == ks[i] && rs[j].0@ == ks[j]);
    }
    assert forall|r: Seq<char>| r != e.0@ implies #[trigger] entry_lookup(rs, r) == entry_lookup(rooms, r) by {
        lemma_first_index_props(ks, r);
        match first_index(ks, r) {
            Some(j) => {
                assert(ks[j] == r);
                assert(rs[j] == rooms[j]);
            },
            None => {},
        }
    }
}

/// Stores `value` under `key`: replaces the value of the entry with that
/// key, or appends an entry.
pub(crate) fn put_entry<V>(rooms: &mut Vec<(String, V)>, key: String, value: V)
    requires
        keys_distinct(old(rooms)@),
    ensures
        keys_distinct(final(rooms)@),
        entry_lookup(final(rooms)@, key@) == Some(value),
        forall|r: Seq<char>| r != key@ ==> #[trigger] entry_lookup(final(rooms)@, r) == entry_lookup(old(rooms)@, r),
{
    let ghost old_rooms = rooms@;
    let ghost ks = keys_of(old_rooms);
    let ghost e = (key, value);
    match find_key(rooms, key.as_str()) {
        Some(p) => {
            proof {
                lemma_first_index_props(ks, key@);
                assert(ks[p as int] == old_rooms[p as int].0@);
            }
            rooms.set(p, (key, value));
            proof { lemma_entry_update(old_rooms, p as int, e); }
        },
        None => {
            rooms.push((key, value));
            proof {
                reveal(entry_lookup);
                let rs = rooms@;
                assert(keys_of(rs) =~= ks.push(e.0@));
                lemma_first_index_push_new(ks, e.0@);
                lemma_first_index_props(ks, e.0@);
                assert forall|i: int, j: int| 0 <= i < j < rs.len() implies rs[i].0@ != rs[j].0@ by {
                    assert(rs[i] == old_rooms[i]);
                    assert(ks[i] == old_rooms[i].0@);
                    if j < old_rooms.len() {
                        assert(rs[j] == old_rooms[j]);
                    }
                }
                assert forall|r: Seq<char>| r != e.0@ implies #[trigger] entry_lookup(rs, r) == entry_lookup(old_rooms, r) by {
                    lemma_first_index_push_other(ks, e.0@, r);
                    lemma_first_index_props(ks, r);
                    match first_index(ks, r) {
                        Some(j) => {
                            assert(rs[j] == old_rooms[j]);
                        },
                        None => {},
                    }
                }
            }
        },
    }
}

/// Appends `item` to the list kept under `key`, starting the list if needed.
fn append_to_list<V>(entries: &mut Vec<(String, Vec<V>)>, key: &str, item: V)
    ensures
        list_lookup(final(entries)@, key@) == list_lookup(old(entries)@, key@).push(item),
        forall|r: Seq<char>| r != key@ ==> #[trigger] list_lookup(final(entries)@, r) == list_lookup(old(entries)@, r),
{
    let ghost old_e = entries@;
    let ghost ks = keys_of(old_e);
    match find_key(entries, key) {
        Some(p) => {
            let (k, mut v) = entries.remove(p);
            let ghost it = item;
            v.push(item);
            entries.insert(p, (k, v));
            proof {
                reveal(list_lookup);
                assert(keys_of(entries@) =~= ks);
                assert(entries@[p as int].1@ == old_e[p as int].1@.push(it));
                lemma_first_index_props(ks, key@);
                assert forall|r: Seq<char>| r != key@ implies #[trigger] list_lookup(entries@, r) == list_lookup(old_e, r) by {
                    lemma_first_index_props(ks, r);
                    match first_index(ks, r) {
                        Some(j) => {
                            assert(ks[j] == r);
                            assert(entries@[j] == old_e[j]);
                        },
                        None => {},
                    }
                }
            }
        },
        None => {
            let mut v: Vec<V> = Vec::new();
            let ghost it = item;
            v.push(item);
            entries.push((copy_str(key), v));
            proof {
                reveal(list_lookup);
                assert(keys_of(entries@) =~= ks.push(key@));
                lemma_first_index_push_new(ks, key@);
                assert(entries@[old_e.len() as int].1@ == seq![it]);
                assert forall|r: Seq<char>| r != key@ implies #[trigger] list_lookup(entries@, r) == list_lookup(old_e, r) by {
                    lemma_first_index_push_other(ks, key@, r);
                    lemma_first_index_props(ks, r);
                    match first_index(ks, r) {
                        Some(j) => {
                            assert(entries@[j] == old_e[j]);
                        },
                        None => {},
                    }
                }
            }
        },
    }
}

/// Sets `key` to `value` in a list of pairs: the first pair with that key
/// gets the value, or the pair is appended.
fn set_pair(entries: &mut Vec<(String, String)>, key: &str, value: &str)
    ensures
        final(entries).deep_view() == with_pair(old(entries).deep_view(), key@, value@),
{
    let ghost dv = entries.deep_view();
    let mut i: usize = 0;
    while i < entries.len()
        invariant
            dv == entries.deep_view(),
            dv == old(entries).deep_view(),
            i <= dv.len(),
            forall|j: int| 0 <= j < i ==> dv[j].0 != key@,
        decreases dv.len() - i,
    {
        assert(dv[i as int] == (entries@[i as int].0@, entries@[i as int].1@));
        if str_eq(&entries[i].0, key) {
            proof {
                assert(dv[i as int].0 == key@);
                let c = choose|c: int| 0 <= c < dv.len() && dv[c].0 == key@ && forall|j: int| 0 <= j < c ==> dv[j].0 != key@;
                if c < i {
                } else if c > i {
                    assert(dv[i as int].0 != key@);
                }
            }
            entries.set(i, (copy_str(key), copy_str(value)));
            assert(entries.deep_view() =~= dv.update(i as int, (key@, value@)));
            return;
        }
        i = i + 1;
    }
    entries.push((copy_str(key), copy_str(value)));
    assert(entries.deep_view() =~= dv.push((key@, value@)));
}

/// `entries` without the pairs keyed `key`, and whether there were any.
fn drop_pairs(entries: &Vec<(String, String)>, key: &str) -> (r: (Vec<(String, String)>, bool))
    ensures
        r.0.deep_view() == without_key(entries.deep_view(), key@),
        r.1 == exists|i: int| 0 <= i < entries@.len() && entries.deep_view()[i].0 == key@,
{
    let ghost dv = entries.deep_view();
    let mut out: Vec<(String, String)> = Vec::new();
    let mut found = false;
    let mut i: usize = 0;
    while i < entries.len()
        invariant
            dv == entries.deep_view(),
            i <= dv.len(),
            out.deep_view() == without_key(dv.take(i as int), key@),
            found == exists|j: int| 0 <= j < i && dv[j].0 == key@,
        decreases dv.len() - i,
    {
        let ghost t = dv.take(i + 1);
        assert(t.drop_last() == dv.take(i as int));
        assert(t.last() == dv[i as int]);
        assert(dv[i as int] == (entries@[i as int].0@, entries@[i as int].1@));
        if str_eq(&entries[i].0, key) {
            found = true;
        } else {
            let ghost before = out.deep_view();
            out.push((copy_str(&entries[i].0), copy_str(&entries[i].1)));
            assert(out.deep_view() =~= before.push(dv[i as int]));
        }
        i = i + 1;
    }
    assert(dv.take(dv.len() as int) == dv);
    (out, found)
}

/// Replacing the annotation list at the first position of its target
/// leaves the lists of other targets as they were.
proof fn lemma_annotations_update(a: Seq<(String, String, Vec<(String, String)>)>, p: int,
    e: (String, String, Vec<(String, String)>))
    requires
        0 <= p < a.len(),
        e.0@ == a[p].0@,
        e.1@ == a[p].1@,
        first_index(targets_of(a), (e.0@, e.1@)) == Some(p),
    ensures
        annotation_lookup(a.update(p, e), e.0@, e.1@) == e.2.deep_view(),
        forall|r: Seq<char>, f: Seq<char>| !(r == e.0@ && f == e.1@)
            ==> #[trigger] annotation_lookup(a.update(p, e), r, f) == annotation_lookup(a, r, f),
{
    reveal(annotation_lookup);
    let ks = targets_of(a);
    assert(targets_of(a.update(p, e)) =~= ks);
    assert forall|r: Seq<char>, f: Seq<char>| !(r == e.0@ && f == e.1@)
        implies #[trigger] annotation_lookup(a.update(p, e), r, f) == annotation_lookup(a, r, f) by {
        lemma_first_index_props(ks, (r, f));
        match first_index(ks, (r, f)) {
            Some(j) => {
                assert(ks[j] == (r, f));
                assert(a.update(p, e)[j] == a[j]);
            },
            None => {},
        }
    }
}

/// Appending an annotation list for a new target.
proof fn lemma_annotations_push(a: Seq<(String, String, Vec<(String, String)>)>, e: (String, String, Vec<(String, String)>))
    requires
        first_index(targets_of(a), (e.0@, e.1@)) is None,
    ensures
        annotation_lookup(a.push(e), e.0@, e.1@) == e.2.deep_view(),
        forall|r: Seq<char>, f: Seq<char>| !(r == e.0@ && f == e.1@)
            ==> #[trigger] annotation_lookup(a.push(e), r, f) == annotation_lookup(a, r, f),
{
    reveal(annotation_lookup);
    let ks = targets_of(a);
    assert(targets_of(a.push(e)) =~= ks.push((e.0@, e.1@)));
    lemma_first_index_push_new(ks, (e.0@, e.1@));
    assert forall|r: Seq<char>, f: Seq<char>| !(r == e.0@ && f == e.1@)
        implies #[trigger] annotation_lookup(a.push(e), r, f) == annotation_lookup(a, r, f) by {
        lemma_first_index_push_other(ks, (e.0@, e.1@), (r, f));
        lemma_first_index_props(ks, (r, f));
        match first_index(ks, (r, f)) {
            Some(j) => {
                assert(a.push(e)[j] == a[j]);
            },
            None => {},
        }
    }
}

impl EngineStore {
    /// Appends a timeline ref to a room's timeline.
    pub fn insert_timeline_ref(&mut self, room_id: &str, tref: TimelineRef)
        ensures
            final(self).refs_of(room_id@) == old(self).refs_of(room_id@).push(tref),
            forall|r: Seq<char>| r != room_id@ ==> #[trigger] final(self).refs_of(r) == old(self).refs_of(r),
            forall|r: Seq<char>| #[trigger] final(self).room(r) == old(self).room(r),
            forall|r: Seq<char>| #[trigger] final(self).messages_of(r) == old(self).messages_of(r),
            forall|r: Seq<char>, f: Seq<char>| #[trigger] final(self).annotations_of(r, f) == old(self).annotations_of(r, f),
    {
        proof { use_type_invariant(&*self); }
        let mut refs: Vec<(String, Vec<TimelineRef>)> = Vec::new();
        std::mem::swap(&mut refs, &mut self.timeline_refs);
        append_to_list(&mut refs, room_id, tref);
        self.timeline_refs = refs;
    }

    /// The first ref with id `ref_id` in a room's timeline.
    pub fn get_timeline_ref(&self, room_id: &str, ref_id: &str) -> (r: Option<&TimelineRef>)
        ensures
            ({
                let refs = self.refs_of(room_id@);
                match r {
                    Some(t) => exists|i: int| 0 <= i < refs.len() && refs[i] == *t && t.ref_id@ == ref_id@
                        && forall|j: int| 0 <= j < i ==> refs[j].ref_id@ != ref_id@,
                    None => forall|i: int| 0 <= i < refs.len() ==> refs[i].ref_id@ != ref_id@,
                }
            }),
    {
        proof { reveal(list_lookup); }
        let p = match find_key(&self.timeline_refs, room_id) {
            Some(p) => p,
            None => return None,
        };
        let refs = &self.timeline_refs[p].1;
        let mut i: usize = 0;
        while i < refs.len()
            invariant
                i <= refs@.len(),
                refs@ == self.refs_of(room_id@),
                forall|j: int| 0 <= j < i ==> refs@[j].ref_id@ != ref_id@,
            decreases refs@.len() - i,
        {
            if str_eq(&refs[i].ref_id, ref_id) {
                return Some(&refs[i]);
            }
            i = i + 1;
        }
        None
    }

    /// A room's timeline refs, oldest first.
    pub fn list_timeline_refs(&self, room_id: &str) -> (r: Vec<&TimelineRef>)
        ensures
            r@.len() == self.refs_of(room_id@).len(),
            forall|i: int| 0 <= i < r@.len() ==> *r@[i] == self.refs_of(room_id@)[i],
    {
        proof { reveal(list_lookup); }
        let mut out: Vec<&TimelineRef> = Vec::new();
        let p = match find_key(&self.timeline_refs, room_id) {
            Some(p) => p,
            None => return out,
        };
        let refs = &self.timeline_refs[p].1;
        let mut i: usize = 0;
        while i < refs.len()
            invariant
                i <= refs@.len(),
                out@.len() == i,
                forall|k: int| 0 <= k < i ==> *out@[k] == refs@[k],
            decreases refs@.len() - i,
        {
            out.push(&refs[i]);
            i = i + 1;
        }
        out
    }

    /// Sets annotation `key` of a ref in a room to `value`, replacing the
    /// value of an annotation with the same key.
    pub fn add_annotation(&mut self, room_id: &str, ref_id: &str, key: &str, value: &str)
        ensures
            final(self).annotations_of(room_id@, ref_id@) == with_pair(old(self).annotations_of(room_id@, ref_id@), key@, value@),
            forall|r: Seq<char>, f: Seq<char>| !(r == room_id@ && f == ref_id@)
                ==> #[trigger] final(self).annotations_of(r, f) == old(self).annotations_of(r, f),
            forall|r: Seq<char>| #[trigger] final(self).room(r) == old(self).room(r),
            forall|r: Seq<char>| #[trigger] final(self).messages_of(r) == old(self).messages_of(r),
            forall|r: Seq<char>| #[trigger] final(self).refs_of(r) == old(self).refs_of(r),
    {
        proof { use_type_invariant(&*self); }
        let ghost old_a = self.annotations@;
        let mut annotations: Vec<(String, String, Vec<(String, String)>)> = Vec::new();
        std::mem::swap(&mut annotations, &mut self.annotations);
        match find_target(&annotations, room_id, ref_id) {
            Some(p) => {
                proof {
                    reveal(annotation_lookup);
                    lemma_first_index_props(targets_of(old_a), (room_id@, ref_id@));
                    assert(targets_of(old_a)[p as int] == (room_id@, ref_id@));
                }
                let (r, f, mut entries) = annotations.remove(p);
                set_pair(&mut entries, key, value);
                let ghost e = (r, f, entries);
                annotations.insert(p, (r, f, entries));
                proof {
                    assert(annotations@ =~= old_a.update(p as int, e));
                    lemma_annotations_update(old_a, p as int, e);
                }
            },
            None => {
                let mut entries: Vec<(String, String)> = Vec::new();
                entries.push((copy_str(key), copy_str(value)));
                let e = (copy_str(room_id), copy_str(ref_id), entries);
                proof {
                    reveal(annotation_lookup);
                    assert(e.2.deep_view() =~= with_pair(Seq::empty(), key@, value@));
                }
                let ghost ge = e;
                annotations.push(e);
                proof { lemma_annotations_push(old_a, ge); }
            },
        }
        self.annotations = annotations;
    }

    /// The annotations of a ref in a room, as (key, value) pairs.
    pub fn list_annotations(&self, room_id: &str, ref_id: &str) -> (r: Vec<(String, String)>)
        ensures
            r.deep_view() == self.annotations_of(room_id@, ref_id@),
    {
        proof { reveal(annotation_lookup); }
        let mut out: Vec<(String, String)> = Vec::new();
        match find_target(&self.annotations, room_id, ref_id) {
            Some(p) => {
                let entries = &self.annotations[p].2;
                let mut i: usize = 0;
                while i < entries.len()
                    invariant
                        i <= entries@.len(),
                        out@.len() == i,
                        forall|k: int| 0 <= k < i ==> out@[k].0@ == entries@[k].0@ && out@[k].1@ == entries@[k].1@,
                    decreases entries@.len() - i,
                {
                    out.push((copy_str(&entries[i].0), copy_str(&entries[i].1)));
                    i = i + 1;
                }
                assert(out.deep_view() =~= entries.deep_view());
            },
            None => {},
        }
        out
    }

    /// Removes annotation `key` from a ref in a room; whether there was one.
    pub fn remove_annotation(&mut self, room_id: &str, ref_id: &str, key: &str) -> (removed: bool)
        ensures
            final(self).annotations_of(room_id@, ref_id@) == without_key(old(self).annotations_of(room_id@, ref_id@), key@),
            removed == exists|i: int| 0 <= i < old(self).annotations_of(room_id@, ref_id@).len()
                && old(self).annotations_of(room_id@, ref_id@)[i].0 == key@,
            forall|r: Seq<char>, f: Seq<char>| !(r == room_id@ && f == ref_id@)
                ==> #[trigger] final(self).annotations_of(r, f) == old(self).annotations_of(r, f),
            forall|r: Seq<char>| #[trigger] final(self).room(r) == old(self).room(r),
            forall|r: Seq<char>| #[trigger] final(self).messages_of(r) == old(self).messages_of(r),
            forall|r: Seq<char>| #[trigger] final(self).refs_of(r) == old(self).refs_of(r),
    {
        proof { use_type_invariant(&*self); }
        let mut annotations: Vec<(String, String, Vec<(String, String)>)> = Vec::new();
        std::mem::swap(&mut annotations, &mut self.annotations);
        let ghost before = annotations@;
        let found = remove_from_target(&mut annotations, room_id, ref_id, key);
        let ghost listed = annotation_lookup(before, room_id@, ref_id@);
        assert(old(self).annotations_of(room_id@, ref_id@) == listed);
        assert(found == exists|i: int| 0 <= i < listed.len() && listed[i].0 == key@);
        self.annotations = annotations;
        found
    }
}

/// Removes the pairs keyed `key` from the annotation list of
/// (`room_id`, `ref_id`); whether there were any.
fn remove_from_target(a: &mut Vec<(String, String, Vec<(String, String)>)>, room_id: &str, ref_id: &str, key: &str) -> (found: bool)
    ensures
        annotation_lookup(final(a)@, room_id@, ref_id@) == without_key(annotation_lookup(old(a)@, room_id@, ref_id@), key@),
        found == exists|i: int| 0 <= i < annotation_lookup(old(a)@, room_id@, ref_id@).len()
            && annotation_lookup(old(a)@, room_id@, ref_id@)[i].0 == key@,
        forall|r: Seq<char>, f: Seq<char>| !(r == room_id@ && f == ref_id@)
            ==> #[trigger] annotation_lookup(final(a)@, r, f) == annotation_lookup(old(a)@, r, f),
{
    let ghost old_a = a@;
    match find_target(a, room_id, ref_id) {
        Some(p) => {
            proof {
                reveal(annotation_lookup);
                lemma_first_index_props(targets_of(old_a), (room_id@, ref_id@));
                assert(targets_of(old_a)[p as int] == (room_id@, ref_id@));
            }
            let (r, f, entries) = a.remove(p);
            assert(entries == old_a[p as int].2);
            assert(annotation_lookup(old_a, room_id@, ref_id@) == entries.deep_view());
            let (kept, found) = drop_pairs(&entries, key);
            assert(entries.deep_view().len() == entries@.len());
            let ghost e = (r, f, kept);
            a.insert(p, (r, f, kept));
            proof {
                assert(a@ =~= old_a.update(p as int, e));
                lemma_annotations_update(old_a, p as int, e);
            }
            found
        },
        None => {
            proof {
                reveal(annotation_lookup);
                assert(annotation_lookup(old_a, room_id@, ref_id@) =~= Seq::empty());
                assert(without_key(Seq::<(Seq<char>, Seq<char>)>::empty(), key@) =~= Seq::empty());
            }
            false
        },
    }
}

/// Setting an annotation: afterwards the pair (`key`, `value`) is listed,
/// the list grows by one exactly when no pair had that key, and the pairs
/// keyed otherwise stay where they were.
pub proof fn lemma_set_then_listed(entries: Seq<(Seq<char>, Seq<char>)>, key: Seq<char>, value: Seq<char>)
    ensures
        with_pair(entries, key, value).contains((key, value)),
        with_pair(entries, key, value).len() == if exists|i: int| 0 <= i < entries.len() && entries[i].0 == key {
            entries.len()
        } else {
            entries.len() + 1
        },
        forall|i: int| 0 <= i < entries.len() && entries[i].0 != key ==> #[trigger] with_pair(entries, key, value)[i] == entries[i],
{
    let w = with_pair(entries, key, value);
    if exists|i: int| 0 <= i < entries.len() && entries[i].0 == key {
        let i0 = choose|i: int| 0 <= i < entries.len() && entries[i].0 == key;
        lemma_first_key_from(entries, key, i0);
        let c = choose|i: int| 0 <= i < entries.len() && entries[i].0 == key
            && forall|j: int| 0 <= j < i ==> entries[j].0 != key;
        assert(w == entries.update(c, (key, value)));
        assert(w[c] == (key, value));
    } else {
        assert(w[entries.len() as int] == (key, value));
    }
}

proof fn lemma_first_key_from(entries: Seq<(Seq<char>, Seq<char>)>, key: Seq<char>, i: int)
    requires
        0 <= i < entries.len(),
        entries[i].0 == key,
    ensures
        exists|c: int| 0 <= c < entries.len() && entries[c].0 == key && forall|j: int| 0 <= j < c ==> entries[j].0 != key,
    decreases i,
{
    if exists|j: int| 0 <= j < i && entries[j].0 == key {
        let j = choose|j: int| 0 <= j < i && entries[j].0 == key;
        lemma_first_key_from(entries, key, j);
    }
}

/// Removing an annotation: afterwards no pair has `key`, and every pair
/// keyed otherwise is still listed.
pub proof fn lemma_removed_not_listed(entries: Seq<(Seq<char>, Seq<char>)>, key: Seq<char>)
    ensures
        forall|i: int| 0 <= i < without_key(entries, key).len() ==> (#[trigger] without_key(entries, key)[i]).0 != key,
        forall|i: int| 0 <= i < entries.len() && (#[trigger] entries[i]).0 != key ==> without_key(entries, key).contains(entries[i]),
        without_key(entries, key).len() <= entries.len(),
    decreases entries.len(),
{
    if entries.len() > 0 {
        let init = entries.drop_last();
        lemma_removed_not_listed(init, key);
        let w0 = without_key(init, key);
        assert forall|i: int| 0 <= i < entries.len() && (#[trigger] entries[i]).0 != key implies without_key(entries, key).contains(entries[i]) by {
            if i < init.len() {
                assert(init[i] == entries[i]);
                let k = choose|k: int| 0 <= k < w0.len() && w0[k] == init[i];
                if entries.last().0 != key {
                    assert(without_key(entries, key)[k] == w0[k]);
                }
            } else {
                assert(without_key(entries, key)[w0.len() as int] == entries[i]);
            }
        }
    }
}

/// A page of messages holds at most `limit` of them, is the newest part
/// of the room's messages when no `before` is given, and never holds the
/// message it pages back from.
pub proof fn lemma_message_window(msgs: Seq<MessageContent>, limit: nat, before: Option<Seq<char>>)
    ensures
        message_window(msgs, limit, before).len() <= limit,
        message_window(msgs, limit, before).len() <= msgs.len(),
        before is None ==> message_window(msgs, limit, before)
            == msgs.subrange(msgs.len() - message_window(msgs, limit, before).len(), msgs.len() as int),
        before is None && limit <= msgs.len() ==> message_window(msgs, limit, before).len() == limit,
        before matches Some(b) ==> forall|i: int| 0 <= i < message_window(msgs, limit, before).len()
            ==> (#[trigger] message_window(msgs, limit, before)[i]).content_id@ != b,
{
    if let Some(b) = before {
        if exists|i: int| 0 <= i < msgs.len() && msgs[i].content_id@ == b {
            let i0 = choose|i: int| 0 <= i < msgs.len() && msgs[i].content_id@ == b;
            lemma_first_content_from(msgs, b, i0);
        }
        let end = content_position(msgs, b);
        let start = if end > limit { end - limit } else { 0 };
        assert forall|i: int| 0 <= i < message_window(msgs, limit, before).len()
            implies (#[trigger] message_window(msgs, limit, before)[i]).content_id@ != b by {
            assert(message_window(msgs, limit, before)[i] == msgs[start + i]);
        }
    }
}

proof fn lemma_first_content_from(msgs: Seq<MessageContent>, b: Seq<char>, i: int)
    requires
        0 <= i < msgs.len(),
        msgs[i].content_id@ == b,
    ensures
        exists|c: int| 0 <= c < msgs.len() && msgs[c].content_id@ == b
            && forall|j: int| 0 <= j < c ==> msgs[j].content_id@ != b,
    decreases i,
{
    if exists|j: int| 0 <= j < i && msgs[j].content_id@ == b {
        let j = choose|j: int| 0 <= j < i && msgs[j].content_id@ == b;
        lemma_first_content_from(msgs, b, j);
    }
}

impl EngineStore {
    /// The number of message lists kept (one per room that got a message).
    pub closed spec fn message_lists(&self) -> nat {
        self.messages@.len()
    }

    /// The number of timeline-ref lists kept (one per room that got a ref).
    pub closed spec fn ref_lists(&self) -> nat {
        self.timeline_refs@.len()
    }

    /// The number of annotation lists kept (one per annotated ref).
    pub closed spec fn annotation_lists(&self) -> nat {
        self.annotations@.len()
    }

    /// A debugging summary of the store: how many rooms, message lists,
    /// timeline-ref lists and annotation lists it holds.
    pub open spec fn debug_text(&self) -> Seq<char> {
        "EngineStore { rooms_count: "@ + decimal(self.room_list().len())
            + ", messages_rooms: "@ + decimal(self.message_lists())
            + ", timeline_rooms: "@ + decimal(self.ref_lists())
            + ", annotation_entries: "@ + decimal(self.annotation_lists())
            + " }"@
    }

    /// The debugging summary of the store.
    pub fn debug_string(&self) -> (s: String)
        ensures
            s@ == self.debug_text(),
    {
        let s = concat2("EngineStore { rooms_count: ", &u64_to_decimal(self.rooms.len() as u64));
        let s = concat2(&s, ", messages_rooms: ");
        let s = concat2(&s, &u64_to_decimal(self.messages.len() as u64));
        let s = concat2(&s, ", timeline_rooms: ");
        let s = concat2(&s, &u64_to_decimal(self.timeline_refs.len() as u64));
        let s = concat2(&s, ", annotation_entries: ");
        let s = concat2(&s, &u64_to_decimal(self.annotations.len() as u64));
        concat2(&s, " }")
    }
}

impl Default for EngineStore {
    /// An empty store.
    fn default() -> (s: EngineStore)
        ensures
            s.room_list().len() == 0,
            forall|r: Seq<char>| #[trigger] s.room(r) is None,
            forall|r: Seq<char>| (#[trigger] s.messages_of(r)).len() == 0,
            forall|r: Seq<char>| (#[trigger] s.refs_of(r)).len() == 0,
            forall|r: Seq<char>, f: Seq<char>| (#[trigger] s.annotations_of(r, f)).len() == 0,
    {
        EngineStore::new()
    }
}

} // verus!
