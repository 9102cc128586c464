//! The timeline: refs in shards, cursor pagination, and the civil dates of
//! creation times.
use vstd::prelude::*;
use crate::error::EngineError;
use crate::hooks::executor::HookHandler;
use crate::hooks::phase::{HookContext, HookDeclaration, HookPhase, TriggerEvent};
use crate::json::{field, get_field, is_str, is_string_array, set_field, str_or, string_array, string_field_or, JsonValue};
use crate::sync::{unix_millis, unix_time};
use crate::text::{copy_str, str_eq, u64_to_padded, zero_padded};
use crate::registry::datatype::{builtin_declaration, is_builtin_declaration, DatatypeDeclaration, StorageType, WriterRule};

verus! {

/// The timeline datatype: one CRDT array `timeline_index` per room shard,
/// written by room members; it depends on the identity and room datatypes.
pub fn timeline_datatype() -> (d: DatatypeDeclaration)
    ensures
        is_builtin_declaration(d, "timeline"@, seq!["identity"@, "room"@], "timeline_index"@, StorageType::CrdtArray,
            "ezagent/{room_id}/index/{shard_id}/{state|updates}"@, WriterRule::SignerInMembers),
{
    let mut deps: Vec<String> = Vec::new();
    deps.push(copy_str("identity"));
    deps.push(copy_str("room"));
    let ghost dv = deps@.map_values(|s: String| s@);
    assert(dv =~= seq!["identity"@, "room"@]);
    builtin_declaration("timeline", deps, "timeline_index", StorageType::CrdtArray,
        "ezagent/{room_id}/index/{shard_id}/{state|updates}", WriterRule::SignerInMembers)
}

/// The Gregorian leap-year rule.
pub open spec fn leap(year: nat) -> bool {
    (year % 4 == 0 && year % 100 != 0) || year % 400 == 0
}

/// The number of days of `year`.
pub open spec fn year_days(year: nat) -> nat {
    if leap(year) { 366 } else { 365 }
}

/// The number of days from 1970-01-01 to the first day of `year`.
pub open spec fn days_before_year(year: nat) -> nat
    decreases year,
{
    if year <= 1970 { 0 } else { days_before_year((year - 1) as nat) + year_days((year - 1) as nat) }
}

/// The number of days of month `month` (1 to 12) of `year`.
pub open spec fn month_days(year: nat, month: nat) -> nat {
    if month == 2 {
        if leap(year) { 29 } else { 28 }
    } else if month == 4 || month == 6 || month == 9 || month == 11 {
        30
    } else {
        31
    }
}

/// The number of days of `year` before the first of `month`.
pub open spec fn days_before_month(year: nat, month: nat) -> nat
    decreases month,
{
    if month <= 1 { 0 } else { days_before_month(year, (month - 1) as nat) + month_days(year, (month - 1) as nat) }
}

/// `(year, month, day)` is the date `days` days after 1970-01-01.
pub open spec fn is_date_of(days: nat, year: nat, month: nat, day: nat) -> bool {
    &&& year >= 1970
    &&& days_before_year(year) <= days < days_before_year(year) + year_days(year)
    &&& 1 <= month <= 12
    &&& days_before_month(year, month) <= days - days_before_year(year) < days_before_month(year, month) + month_days(year, month)
    &&& day == days - days_before_year(year) - days_before_month(year, month) + 1
}

/// Whether `year` is a leap year.
pub fn is_leap_year(year: u64) -> (r: bool)
    ensures
        r == leap(year as nat),
{
    (year % 4 == 0 && year % 100 != 0) || year % 400 == 0
}

/// At least 365 days pass per year.
proof fn lemma_days_before_year_lower(year: nat)
    ensures
        year >= 1970 ==> days_before_year(year) >= 365 * (year - 1970),
    decreases year,
{
    if year > 1970 {
        lemma_days_before_year_lower((year - 1) as nat);
    }
}

/// A year's months add up to the year.
proof fn lemma_months_fill_year(year: nat)
    ensures
        days_before_month(year, 13) == year_days(year),
{
    reveal_with_fuel(days_before_month, 13);
}

/// The date `total_days` days after 1970-01-01, as (year, month, day).
pub fn days_to_date(total_days: u64) -> (r: (u64, u64, u64))
    ensures
        is_date_of(total_days as nat, r.0 as nat, r.1 as nat, r.2 as nat),
{
    let mut rest: u64 = total_days;
    let mut year: u64 = 1970;
    proof { lemma_days_before_year_lower(1970); }
    loop
        invariant
            year >= 1970,
            days_before_year(year as nat) + rest == total_days,
        ensures
            year >= 1970,
            days_before_year(year as nat) + rest == total_days,
            rest < year_days(year as nat),
        decreases rest,
    {
        let days_in_year: u64 = if is_leap_year(year) { 366 } else { 365 };
        if rest < days_in_year {
            break;
        }
        proof {
            lemma_days_before_year_lower(year as nat);
            assert(365 * (year - 1970) <= total_days);
            assert(year < u64::MAX) by (nonlinear_arith)
                requires
                    365 * (year - 1970) <= total_days,
                    total_days <= u64::MAX,
                    year >= 1970;
        }
        rest = rest - days_in_year;
        year = year + 1;
    }
    let leap_year = is_leap_year(year);
    let ghost y = year as nat;
    let ghost before_months = rest;
    proof { lemma_months_fill_year(y); }
    let mut month: u64 = 1;
    let mut left: u64 = rest;
    loop
        invariant
            1 <= month <= 12,
            leap_year == leap(y),
            days_before_month(y, month as nat) + left == before_months,
            before_months < days_before_month(y, 13),
        ensures
            1 <= month <= 12,
            days_before_month(y, month as nat) + left == before_months,
            left < month_days(y, month as nat),
        decreases 12 - month,
    {
        let dim: u64 = if month == 2 {
            if leap_year { 29 } else { 28 }
        } else if month == 4 || month == 6 || month == 9 || month == 11 {
            30
        } else {
            31
        };
        if left < dim {
            break;
        }
        if month == 12 {
            proof {
                assert(days_before_month(y, 13) == days_before_month(y, 12) + month_days(y, 12));
            }
            break;
        }
        left = left - dim;
        month = month + 1;
    }
    (year, month, left + 1)
}

/// `YYYY-MM-DDTHH:MM:SSZ` for a count of seconds since the Unix epoch;
/// the year has at least four digits.
pub open spec fn iso8601(epoch_secs: nat, year: nat, month: nat, day: nat) -> Seq<char> {
    let rem = epoch_secs % 86400;
    zero_padded(year, 4) + "-"@ + zero_padded(month, 2) + "-"@ + zero_padded(day, 2) + "T"@
        + zero_padded(rem / 3600, 2) + ":"@ + zero_padded((rem % 3600) / 60, 2) + ":"@
        + zero_padded(rem % 60, 2) + "Z"@
}

/// Later years start at least a year later.
proof fn lemma_years_grow(y1: nat, y2: nat)
    requires
        1970 <= y1 < y2,
    ensures
        days_before_year(y2) >= days_before_year(y1) + year_days(y1),
    decreases y2,
{
    if y2 > y1 + 1 {
        lemma_years_grow(y1, (y2 - 1) as nat);
    }
}

/// Later months start at least a month later.
proof fn lemma_months_grow(y: nat, m1: nat, m2: nat)
    requires
        1 <= m1 < m2,
    ensures
        days_before_month(y, m2) >= days_before_month(y, m1) + month_days(y, m1),
    decreases m2,
{
    if m2 > m1 + 1 {
        lemma_months_grow(y, m1, (m2 - 1) as nat);
    }
}

/// A day count has one date.
pub proof fn lemma_date_unique(days: nat, y1: nat, m1: nat, d1: nat, y2: nat, m2: nat, d2: nat)
    requires
        is_date_of(days, y1, m1, d1),
        is_date_of(days, y2, m2, d2),
    ensures
        y1 == y2 && m1 == m2 && d1 == d2,
{
    if y1 < y2 {
        lemma_years_grow(y1, y2);
    } else if y2 < y1 {
        lemma_years_grow(y2, y1);
    }
    if m1 < m2 {
        lemma_months_grow(y1, m1, m2);
    } else if m2 < m1 {
        lemma_months_grow(y1, m2, m1);
    }
}

/// The date `days` days after 1970-01-01.
pub open spec fn date_of(days: nat) -> (nat, nat, nat) {
    choose|y: nat, m: nat, d: nat| is_date_of(days, y, m, d)
}

/// `YYYY-MM-DDTHH:MM:SSZ` (UTC) for a count of seconds since the Unix epoch.
pub open spec fn iso8601_text(epoch_secs: nat) -> Seq<char> {
    let (y, m, d) = date_of(epoch_secs / 86400);
    iso8601(epoch_secs, y, m, d)
}

/// Formats a Unix timestamp (seconds) as `YYYY-MM-DDTHH:MM:SSZ` in UTC.
pub fn format_iso8601(epoch_secs: u64) -> (s: String)
    ensures
        s@ == iso8601_text(epoch_secs as nat),
        is_date_of(epoch_secs as nat / 86400, date_of(epoch_secs as nat / 86400).0,
            date_of(epoch_secs as nat / 86400).1, date_of(epoch_secs as nat / 86400).2),
{
    let total_days = epoch_secs / 86400;
    let rem = epoch_secs % 86400;
    let hours = rem / 3600;
    let minutes = (rem % 3600) / 60;
    let seconds = rem % 60;
    let (year, month, day) = days_to_date(total_days);
    let mut s = u64_to_padded(year, 4);
    s.append("-");
    s.append(&u64_to_padded(month, 2));
    s.append("-");
    s.append(&u64_to_padded(day, 2));
    s.append("T");
    s.append(&u64_to_padded(hours, 2));
    s.append(":");
    s.append(&u64_to_padded(minutes, 2));
    s.append(":");
    s.append(&u64_to_padded(seconds, 2));
    s.append("Z");
    assert(s@ == iso8601(epoch_secs as nat, year as nat, month as nat, day as nat));
    proof {
        let days = epoch_secs as nat / 86400;
        assert(is_date_of(days, year as nat, month as nat, day as nat));
        let (y, m, d) = date_of(days);
        lemma_date_unique(days, y, m, d, year as nat, month as nat, day as nat);
    }
    s
}

/// Whether a ref is live or was withdrawn by its author.
#[derive(Debug, Clone, Copy, PartialEq, Eq, Structural)]
pub enum RefStatus {
    Active,
    DeletedByAuthor,
}

/// One entry of the timeline: a reference to a content object.
#[derive(Debug)]
pub struct TimelineRef {
    /// Time-sortable id of the ref.
    pub ref_id: String,
    pub author: String,
    /// `immutable`, `mutable` or `collaborative`.
    pub content_type: String,
    pub content_id: String,
    /// ISO 8601 creation time.
    pub created_at: String,
    pub status: RefStatus,
    pub signature: Option<String>,
    /// Extension fields (`ext.*`), each with its value as JSON text.
    pub ext: Vec<(String, String)>,
}

/// Two refs hold the same field values.
pub open spec fn same_ref(a: TimelineRef, b: TimelineRef) -> bool {
    &&& a.ref_id@ == b.ref_id@
    &&& a.author@ == b.author@
    &&& a.content_type@ == b.content_type@
    &&& a.content_id@ == b.content_id@
    &&& a.created_at@ == b.created_at@
    &&& a.status == b.status
    &&& a.signature.is_some() == b.signature.is_some()
    &&& (a.signature matches Some(x) ==> b.signature matches Some(y) && x@ == y@)
    &&& a.ext.deep_view() == b.ext.deep_view()
}

impl TimelineRef {
    /// A copy of this ref.
    pub fn duplicate(&self) -> (r: TimelineRef)
        ensures
            same_ref(r, *self),
    {
        let mut ext: Vec<(String, String)> = Vec::new();
        let mut i: usize = 0;
        while i < self.ext.len()
            invariant
                i <= self.ext@.len(),
                ext@.len() == i,
                forall|k: int| 0 <= k < i ==> ext@[k].0@ == self.ext@[k].0@ && ext@[k].1@ == self.ext@[k].1@,
            decreases self.ext@.len() - i,
        {
            ext.push((copy_str(&self.ext[i].0), copy_str(&self.ext[i].1)));
            i = i + 1;
        }
        assert(ext.deep_view() =~= self.ext.deep_view());
        TimelineRef {
            ref_id: copy_str(&self.ref_id),
            author: copy_str(&self.author),
            content_type: copy_str(&self.content_type),
            content_id: copy_str(&self.content_id),
            created_at: copy_str(&self.created_at),
            status: self.status,
            signature: match &self.signature {
                Some(x) => Some(copy_str(x)),
                None => None,
            },
            ext,
        }
    }
}

/// A shard: an identified, ordered run of refs.
#[derive(Debug)]
pub struct TimelineShard {
    /// Time-sortable (UUID v7) id of the shard.
    pub shard_id: String,
    pub refs: Vec<TimelineRef>,
}

/// Where a page starts: a shard and the offset of the next ref in it.
#[derive(Debug, Clone)]
pub struct PaginationCursor {
    pub shard_id: String,
    pub offset: usize,
}

/// One page of refs and where the next page starts.
#[derive(Debug)]
pub struct PaginationResult {
    pub refs: Vec<TimelineRef>,
    pub next_cursor: Option<PaginationCursor>,
    pub has_more: bool,
}

/// The refs of shards `j` and after, in order.
pub open spec fn refs_from_shard(shards: Seq<TimelineShard>, j: int) -> Seq<TimelineRef>
    decreases shards.len() - j,
{
    if j < 0 || j >= shards.len() {
        Seq::empty()
    } else {
        shards[j].refs@ + refs_from_shard(shards, j + 1)
    }
}

/// The refs from offset `off` of shard `i` on, through the later shards.
pub open spec fn refs_from(shards: Seq<TimelineShard>, i: int, off: int) -> Seq<TimelineRef> {
    if i < 0 || i >= shards.len() {
        Seq::empty()
    } else {
        let n = shards[i].refs@.len();
        shards[i].refs@.subrange(if off < n { off } else { n as int }, n as int) + refs_from_shard(shards, i + 1)
    }
}

/// Where a page starts: the cursor's shard (the first when no shard has
/// its id) and offset, or the very beginning without a cursor.
pub open spec fn page_start(shards: Seq<TimelineShard>, cursor: Option<&PaginationCursor>) -> (int, int) {
    match cursor {
        None => (0, 0),
        Some(c) => {
            let i = if exists|j: int| 0 <= j < shards.len() && shards[j].shard_id@ == c.shard_id@ {
                choose|j: int| 0 <= j < shards.len() && shards[j].shard_id@ == c.shard_id@
                    && forall|k: int| 0 <= k < j ==> shards[k].shard_id@ != c.shard_id@
            } else {
                0
            };
            (i, c.offset as int)
        },
    }
}

/// Where reading stops after taking up to `k` (more than 0) refs from
/// offset `off` of shard `i`: each shard gives what it has from the offset;
/// a shard read to its end moves the position to the start of the next.
pub open spec fn page_end(shards: Seq<TimelineShard>, i: int, off: int, k: int) -> (int, int)
    decreases shards.len() - i,
{
    if i < 0 || i >= shards.len() || k <= 0 {
        (i, off)
    } else {
        let n = shards[i].refs@.len() as int;
        let t = if off < n { if k < n - off { k } else { n - off } } else { 0 };
        let next = if off + t >= n { (i + 1, 0int) } else { (i, off + t) };
        if k - t == 0 { next } else { page_end(shards, next.0, next.1, k - t) }
    }
}

/// There are refs after the end position: some ref lies at or after it,
/// in its shard or a later one.
pub open spec fn more_after(shards: Seq<TimelineShard>, end: (int, int)) -> bool {
    0 <= end.0 < shards.len() && refs_from(shards, end.0, end.1).len() > 0
}

/// No two shards share an id.
pub open spec fn shard_ids_distinct(shards: Seq<TimelineShard>) -> bool {
    forall|a: int, b: int| 0 <= a < b < shards.len() ==> shards[a].shard_id@ != shards[b].shard_id@
}

/// Reading up to `k` refs from a position and continuing from where the
/// reading stopped skips exactly the refs read.
pub proof fn lemma_page_end_continues(shards: Seq<TimelineShard>, i: int, off: int, k: int)
    requires
        0 <= i,
        0 <= off,
        k > 0,
    ensures
        ({
            let all = refs_from(shards, i, off);
            let end = page_end(shards, i, off, k);
            refs_from(shards, end.0, end.1) == all.skip(if k < all.len() { k } else { all.len() as int })
        }),
    decreases shards.len() - i,
{
    let all = refs_from(shards, i, off);
    if i >= shards.len() {
        assert(all.skip(0) =~= all);
    } else {
        let n = shards[i].refs@.len() as int;
        let o = if off < n { off } else { n };
        let head = shards[i].refs@.subrange(o, n);
        let rest = refs_from_shard(shards, i + 1);
        assert(all == head + rest);
        let t = if off < n { if k < n - off { k } else { n - off } } else { 0 };
        assert(t == if k < head.len() { k } else { head.len() as int });
        if k - t == 0 {
            if off + t >= n {
                lemma_refs_from_start(shards, i + 1);
                assert(all.skip(k) =~= rest);
            } else {
                assert(refs_from(shards, i, off + t) =~= all.skip(k));
            }
        } else {
            lemma_refs_from_start(shards, i + 1);
            lemma_page_end_continues(shards, i + 1, 0, k - t);
            let m = if k < all.len() { k } else { all.len() as int };
            let m2 = if k - t < rest.len() { k - t } else { rest.len() as int };
            assert(m == t + m2);
            assert(all.skip(m) =~= rest.skip(m2));
        }
    }
}

/// With shard ids distinct, a cursor naming the shard and offset where a
/// page stopped starts the next page exactly there, so that page holds the
/// refs after those already read: following cursors reads every ref once,
/// in order.
pub proof fn lemma_next_page_continues(shards: Seq<TimelineShard>, cursor: Option<&PaginationCursor>, limit: int,
    next: PaginationCursor)
    requires
        shard_ids_distinct(shards),
        shards.len() > 0,
        limit > 0,
        ({
            let st = page_start(shards, cursor);
            let end = page_end(shards, st.0, st.1, limit);
            more_after(shards, end) && next.shard_id@ == shards[end.0].shard_id@ && next.offset == end.1
        }),
    ensures
        ({
            let st = page_start(shards, cursor);
            let all = refs_from(shards, st.0, st.1);
            let nx = page_start(shards, Some(&next));
            refs_from(shards, nx.0, nx.1) == all.skip(if limit < all.len() { limit } else { all.len() as int })
        }),
{
    let st = page_start(shards, cursor);
    lemma_page_start_shard(shards, cursor);
    let end = page_end(shards, st.0, st.1, limit);
    lemma_page_end_continues(shards, st.0, st.1, limit);
    let j = end.0;
    assert(0 <= j < shards.len() && shards[j].shard_id@ == next.shard_id@);
    let c = choose|c: int| 0 <= c < shards.len() && shards[c].shard_id@ == next.shard_id@
        && forall|k: int| 0 <= k < c ==> shards[k].shard_id@ != next.shard_id@;
    if c < j {
        assert(shards[c].shard_id@ != shards[j].shard_id@);
    } else if c > j {
        assert(shards[j].shard_id@ != next.shard_id@);
    }
}

/// The refs of up to `n` pages of `limit` refs read from shard `i`, offset
/// `off`, each page starting where the previous one stopped, until no ref
/// is left.
pub open spec fn walk_pages(shards: Seq<TimelineShard>, i: int, off: int, limit: int, n: nat) -> Seq<TimelineRef>
    decreases n,
{
    if n == 0 {
        Seq::empty()
    } else {
        let all = refs_from(shards, i, off);
        let count = if limit < all.len() { limit } else { all.len() as int };
        let end = page_end(shards, i, off, limit);
        all.take(count) + if more_after(shards, end) { walk_pages(shards, end.0, end.1, limit, (n - 1) as nat) } else { Seq::empty() }
    }
}

/// Reading stops at a position no earlier than where it started.
proof fn lemma_page_end_nonneg(shards: Seq<TimelineShard>, i: int, off: int, k: int)
    requires
        0 <= i,
        0 <= off,
    ensures
        0 <= page_end(shards, i, off, k).0,
        0 <= page_end(shards, i, off, k).1,
    decreases shards.len() - i,
{
    if !(i < 0 || i >= shards.len() || k <= 0) {
        let n = shards[i].refs@.len() as int;
        let t = if off < n { if k < n - off { k } else { n - off } } else { 0 };
        let next = if off + t >= n { (i + 1, 0int) } else { (i, off + t) };
        if k - t != 0 {
            lemma_page_end_nonneg(shards, next.0, next.1, k - t);
        }
    }
}

/// Walking the pages from any position, following each page's end, reads
/// every ref from that position on exactly once and in order, given enough
/// pages (as many as there are refs suffice).
pub proof fn lemma_pages_cover_all(shards: Seq<TimelineShard>, i: int, off: int, limit: int, n: nat)
    requires
        0 <= i,
        0 <= off,
        limit > 0,
        n >= refs_from(shards, i, off).len(),
        n > 0,
    ensures
        walk_pages(shards, i, off, limit, n) == refs_from(shards, i, off),
    decreases n,
{
    let all = refs_from(shards, i, off);
    let count = if limit < all.len() { limit } else { all.len() as int };
    let end = page_end(shards, i, off, limit);
    lemma_page_end_continues(shards, i, off, limit);
    lemma_page_end_nonneg(shards, i, off, limit);
    assert(refs_from(shards, end.0, end.1) == all.skip(count));
    if more_after(shards, end) {
        assert(all.len() > 0);
        assert(count >= 1);
        lemma_pages_cover_all(shards, end.0, end.1, limit, (n - 1) as nat);
    } else {
        if 0 <= end.0 < shards.len() {
        } else {
            assert(refs_from(shards, end.0, end.1).len() == 0);
        }
    }
    assert(all.take(count) + all.skip(count) =~= all);
}

/// A page starts inside the timeline's shards.
proof fn lemma_page_start_shard(shards: Seq<TimelineShard>, cursor: Option<&PaginationCursor>)
    requires
        shards.len() > 0,
    ensures
        0 <= page_start(shards, cursor).0 < shards.len(),
{
    if let Some(c) = cursor {
        if exists|j: int| 0 <= j < shards.len() && shards[j].shard_id@ == c.shard_id@ {
            let j = choose|j: int| 0 <= j < shards.len() && shards[j].shard_id@ == c.shard_id@;
            lemma_first_shard_from(shards, c.shard_id@, j);
        }
    }
}

proof fn lemma_first_shard_from(shards: Seq<TimelineShard>, id: Seq<char>, j: int)
    requires
        0 <= j < shards.len(),
        shards[j].shard_id@ == id,
    ensures
        exists|c: int| 0 <= c < shards.len() && shards[c].shard_id@ == id
            && forall|k: int| 0 <= k < c ==> shards[k].shard_id@ != id,
    decreases j,
{
    if exists|k: int| 0 <= k < j && shards[k].shard_id@ == id {
        let k = choose|k: int| 0 <= k < j && shards[k].shard_id@ == id;
        lemma_first_shard_from(shards, id, k);
    }
}

/// The refs from the start of shard `i` are those of shards `i` and after.
proof fn lemma_refs_from_start(shards: Seq<TimelineShard>, i: int)
    requires
        0 <= i,
    ensures
        refs_from(shards, i, 0) == refs_from_shard(shards, i),
{
    if i < shards.len() {
        assert(shards[i].refs@.subrange(0, shards[i].refs@.len() as int) == shards[i].refs@);
    }
}

/// The position of the first shard with id `id`, or 0 when none has it.
fn find_shard(shards: &[TimelineShard], id: &str) -> (r: usize)
    requires
        shards@.len() > 0,
    ensures
        r < shards@.len(),
        (exists|j: int| 0 <= j < shards@.len() && shards@[j].shard_id@ == id@) ==> {
            &&& shards@[r as int].shard_id@ == id@
            &&& forall|k: int| 0 <= k < r ==> shards@[k].shard_id@ != id@
        },
        !(exists|j: int| 0 <= j < shards@.len() && shards@[j].shard_id@ == id@) ==> r == 0,
{
    let mut j: usize = 0;
    while j < shards.len()
        invariant
            j <= shards@.len(),
            forall|k: int| 0 <= k < j ==> shards@[k].shard_id@ != id@,
        decreases shards@.len() - j,
    {
        if str_eq(&shards[j].shard_id, id) {
            return j;
        }
        j = j + 1;
    }
    0
}

/// Whether some ref lies at or after offset `co` of shard `ci`, in that
/// shard or a later one.
fn refs_remain(shards: &[TimelineShard], ci: usize, co: usize) -> (b: bool)
    requires
        ci < shards@.len(),
    ensures
        b == (refs_from(shards@, ci as int, co as int).len() > 0),
{
    let ghost sv = shards@;
    if co < shards[ci].refs.len() {
        return true;
    }
    let mut j: usize = ci + 1;
    while j < shards.len()
        invariant
            sv == shards@,
            ci < j <= sv.len(),
            refs_from(sv, ci as int, co as int).len() == refs_from_shard(sv, j as int).len(),
        decreases sv.len() - j,
    {
        assert(refs_from_shard(sv, j as int) == sv[j as int].refs@ + refs_from_shard(sv, j as int + 1));
        if shards[j].refs.len() > 0 {
            return true;
        }
        j = j + 1;
    }
    false
}

/// One page of up to `limit` refs, starting at `cursor` (at the beginning
/// without one). No shards or a zero limit give an empty page. The page
/// reports whether refs remain after it and, if so, a cursor to them.
pub fn paginate(shards: &[TimelineShard], cursor: Option<&PaginationCursor>, limit: usize) -> (r: PaginationResult)
    ensures
        (shards@.len() == 0 || limit == 0) ==> {
            &&& r.refs@.len() == 0
            &&& r.next_cursor is None
            &&& !r.has_more
        },
        (shards@.len() > 0 && limit > 0) ==> ({
            let st = page_start(shards@, cursor);
            let all = refs_from(shards@, st.0, st.1);
            let count = if limit < all.len() { limit as int } else { all.len() as int };
            let end = page_end(shards@, st.0, st.1, limit as int);
            &&& r.refs@.len() == count
            &&& forall|j: int| 0 <= j < count ==> same_ref(#[trigger] r.refs@[j], all[j])
            &&& r.has_more == more_after(shards@, end)
            &&& r.has_more ==> (r.next_cursor matches Some(c) && c.shard_id@ == shards@[end.0].shard_id@ && c.offset == end.1)
            &&& !r.has_more ==> r.next_cursor is None
        }),
{
    if shards.len() == 0 || limit == 0 {
        return PaginationResult { refs: Vec::new(), next_cursor: None, has_more: false };
    }
    let ghost sv = shards@;
    let ghost st = page_start(sv, cursor);
    let (si, so): (usize, usize) = match cursor {
        Some(c) => (find_shard(shards, &c.shard_id), c.offset),
        None => (0, 0),
    };
    proof {
        if let Some(c) = cursor {
            if exists|j: int| 0 <= j < sv.len() && sv[j].shard_id@ == c.shard_id@ {
                let w = choose|w: int| 0 <= w < sv.len() && sv[w].shard_id@ == c.shard_id@
                    && forall|k: int| 0 <= k < w ==> sv[k].shard_id@ != c.shard_id@;
                if w < si {
                } else if w > si {
                    assert(sv[si as int].shard_id@ == c.shard_id@);
                }
            }
        }
    }
    assert(si as int == st.0 && so as int == st.1);
    let ghost all = refs_from(sv, si as int, so as int);
    let ghost end = page_end(sv, si as int, so as int, limit as int);
    let mut out: Vec<TimelineRef> = Vec::new();
    let mut ci: usize = si;
    let mut co: usize = so;
    while out.len() < limit && ci < shards.len()
        invariant
            sv == shards@,
            sv.len() > 0,
            limit > 0,
            out@.len() <= limit,
            out@.len() <= all.len(),
            forall|j: int| 0 <= j < out@.len() ==> same_ref(#[trigger] out@[j], all[j]),
            refs_from(sv, ci as int, co as int) == all.skip(out@.len() as int),
            end == (if out@.len() == limit { (ci as int, co as int) } else { page_end(sv, ci as int, co as int, limit - out@.len()) }),
            ci <= sv.len(),
        decreases sv.len() - ci, limit - out@.len(),
    {
        let n = shards[ci].refs.len();
        let ghost taken = out@.len();
        let ghost k = limit - taken;
        let ghost i = ci as int;
        let ghost off = co as int;
        let mut t: usize = 0;
        if co < n {
            let rem = limit - out.len();
            let avail = n - co;
            t = if rem < avail { rem } else { avail };
            proof {
                assert(refs_from(sv, i, off).len() >= n - co);
            }
            let mut j: usize = 0;
            while j < t
                invariant
                    sv == shards@,
                    taken + t <= all.len(),
                    ci < sv.len(),
                    n == sv[ci as int].refs@.len(),
                    co + t <= n,
                    j <= t,
                    out@.len() == taken + j,
                    refs_from(sv, ci as int, co as int) == all.skip(taken as int),
                    taken <= all.len(),
                    forall|m: int| 0 <= m < out@.len() ==> same_ref(#[trigger] out@[m], all[m]),
                decreases t - j,
            {
                proof {
                    assert(all.skip(taken as int)[j as int] == refs_from(sv, ci as int, co as int)[j as int]);
                    assert(refs_from(sv, ci as int, co as int)[j as int] == sv[ci as int].refs@[co + j]);
                }
                out.push(shards[ci].refs[co + j].duplicate());
                j = j + 1;
            }
            co = co + t;
            proof {
                let sub = sv[i].refs@;
                assert(all.skip(taken as int) == sub.subrange(off, n as int) + refs_from_shard(sv, i + 1));
                assert(all.skip(taken + t as int) =~= all.skip(taken as int).skip(t as int));
                assert(sub.subrange(off, n as int).skip(t as int) =~= sub.subrange(off + t, n as int));
            }
        }
        proof {
            if co >= n {
                lemma_refs_from_start(sv, i + 1);
            }
        }
        if co >= n {
            ci = ci + 1;
            co = 0;
        }
    }
    let has_more = if ci < shards.len() {
        refs_remain(shards, ci, co)
    } else {
        false
    };
    let next_cursor = if has_more {
        Some(PaginationCursor { shard_id: copy_str(&shards[ci].shard_id), offset: co })
    } else {
        None
    };
    PaginationResult { refs: out, next_cursor, has_more }
}

/// A lowercase hexadecimal digit.
pub open spec fn lower_hex_char(c: char) -> bool {
    ('0' <= c <= '9') || ('a' <= c <= 'f')
}

/// The hyphenated text of a UUID: 36 characters, `-` at positions 8, 13, 18
/// and 23 and a lowercase hexadecimal digit everywhere else.
pub open spec fn is_hyphenated_uuid(s: Seq<char>) -> bool {
    &&& s.len() == 36
    &&& forall|i: int| 0 <= i < 36 ==> if i == 8 || i == 13 || i == 18 || i == 23 {
        #[trigger] s[i] == '-'
    } else {
        lower_hex_char(s[i])
    }
}

/// `uuid::Uuid::new_v7` on `uuid::Timestamp::from_unix` with a fresh
/// `uuid::ContextV7`, then `to_string`: a time-sortable UUID for the
/// moment `secs` seconds and `nanos` nanoseconds after the Unix epoch, in
/// its hyphenated lowercase form (the crate's `Display` writes the 32 hex
/// digits of the 16 bytes in groups of 8, 4, 4, 4 and 12). Its counter
/// and random bits come from the operating system's random source, so
/// which UUID comes back is left open.
#[verifier::external_body]
pub(crate) fn uuid_v7_at(secs: u64, nanos: u32) -> (id: String)
    ensures
        is_hyphenated_uuid(id@),
{
    uuid::Uuid::new_v7(uuid::Timestamp::from_unix(uuid::ContextV7::new(), secs, nanos)).to_string()
}

/// A fresh UUID v7 for the current time (the Unix epoch itself for a
/// clock that reads before it).
pub(crate) fn new_uuid_v7() -> (id: String)
    ensures
        is_hyphenated_uuid(id@),
{
    let (secs, nanos) = unix_time();
    uuid_v7_at(secs, nanos)
}

/// The timeline's shards; refs go to the last one, and a new shard starts
/// when it holds `shard_max_refs` refs.
pub struct ShardManager {
    /// Oldest first.
    pub shards: Vec<TimelineShard>,
    pub shard_max_refs: u64,
}

/// The number of refs in all shards.
pub open spec fn ref_count(shards: Seq<TimelineShard>) -> nat
    decreases shards.len(),
{
    if shards.len() == 0 { 0 } else { ref_count(shards.drop_last()) + shards.last().refs@.len() }
}

/// Every shard holds at most `max` refs.
pub open spec fn within_capacity(shards: Seq<TimelineShard>, max: u64) -> bool {
    forall|j: int| 0 <= j < shards.len() ==> (#[trigger] shards[j]).refs@.len() <= max
}

/// The position, among all refs in shard order, of the first ref with id
/// `id`.
pub open spec fn first_ref_with_id(all: Seq<TimelineRef>, id: Seq<char>) -> Option<int> {
    if exists|i: int| 0 <= i < all.len() && all[i].ref_id@ == id {
        Some(choose|i: int| 0 <= i < all.len() && all[i].ref_id@ == id
            && forall|j: int| 0 <= j < i ==> all[j].ref_id@ != id)
    } else {
        None
    }
}

impl ShardManager {
    /// A timeline with one empty shard.
    pub fn new(shard_max_refs: u64) -> (m: ShardManager)
        ensures
            m.shard_max_refs == shard_max_refs,
            m.shards@.len() == 1,
            m.shards@[0].refs@.len() == 0,
            m.shards@[0].shard_id@.len() == 36,
            within_capacity(m.shards@, shard_max_refs),
    {
        let first = TimelineShard { shard_id: new_uuid_v7(), refs: Vec::new() };
        let mut shards: Vec<TimelineShard> = Vec::new();
        shards.push(first);
        ShardManager { shards, shard_max_refs }
    }

    /// The last shard, where refs are added.
    pub fn active_shard(&self) -> (r: Option<&TimelineShard>)
        ensures
            self.shards@.len() == 0 ==> r is None,
            self.shards@.len() > 0 ==> r == Some(&self.shards@.last()),
    {
        if self.shards.len() == 0 {
            None
        } else {
            Some(&self.shards[self.shards.len() - 1])
        }
    }

    /// The shard and position of the first ref, in shard order, whose id is
    /// `ref_id`.
    fn locate_ref(&self, ref_id: &str) -> (r: Option<(usize, usize)>)
        ensures
            match r {
                Some((i, k)) => is_first_ref_at(self.shards@, ref_id@, i as int, k as int),
                None => no_ref_with_id(self.shards@, ref_id@),
            },
    {
        let mut i: usize = 0;
        while i < self.shards.len()
            invariant
                i <= self.shards@.len(),
                forall|i2: int, k2: int| 0 <= i2 < i && 0 <= k2 < self.shards@[i2].refs@.len()
                    ==> (#[trigger] self.shards@[i2].refs@[k2]).ref_id@ != ref_id@,
            decreases self.shards@.len() - i,
        {
            let refs = &self.shards[i].refs;
            let mut k: usize = 0;
            while k < refs.len()
                invariant
                    i < self.shards@.len(),
                    *refs == self.shards@[i as int].refs,
                    k <= refs@.len(),
                    forall|i2: int, k2: int| 0 <= i2 < i && 0 <= k2 < self.shards@[i2].refs@.len()
                        ==> (#[trigger] self.shards@[i2].refs@[k2]).ref_id@ != ref_id@,
                    forall|k2: int| 0 <= k2 < k ==> (#[trigger] refs@[k2]).ref_id@ != ref_id@,
                decreases refs@.len() - k,
            {
                if str_eq(&refs[k].ref_id, ref_id) {
                    return Some((i, k));
                }
                k = k + 1;
            }
            i = i + 1;
        }
        None
    }

    /// The first ref, in shard order, whose id is `ref_id`, to change in
    /// place.
    pub fn find_ref_mut(&mut self, ref_id: &str) -> (r: Option<&mut TimelineRef>)
        ensures
            final(self).shard_max_refs == old(self).shard_max_refs,
            no_ref_with_id(old(self).shards@, ref_id@) ==> r is None && final(self).shards@ == old(self).shards@,
            forall|i: int, k: int| is_first_ref_at(old(self).shards@, ref_id@, i, k) ==> (r matches Some(t)
                && *t == old(self).shards@[i].refs@[k]
                && ref_replaced(old(self).shards@, final(self).shards@, i, k, *final(t))),
    {
        match self.locate_ref(ref_id) {
            None => None,
            Some((i, k)) => {
                proof { lemma_first_ref_unique(self.shards@, ref_id@, i as int, k as int); }
                Some(&mut self.shards[i].refs[k])
            },
        }
    }

    /// The last shard, where refs are added, to change in place.
    pub fn active_shard_mut(&mut self) -> (r: Option<&mut TimelineShard>)
        ensures
            final(self).shard_max_refs == old(self).shard_max_refs,
            old(self).shards@.len() == 0 ==> r is None && final(self).shards@ == old(self).shards@,
            old(self).shards@.len() > 0 ==> (r matches Some(s) && *s == old(self).shards@.last()
                && final(self).shards@ == old(self).shards@.update(old(self).shards@.len() - 1, *final(s))),
    {
        let n = self.shards.len();
        if n == 0 {
            None
        } else {
            Some(&mut self.shards[n - 1])
        }
    }

    /// Adds a ref to the last shard, first starting a new shard when there
    /// is none or the last one is full; returns the id of the shard that
    /// received it.
    pub fn add_ref(&mut self, timeline_ref: TimelineRef) -> (id: String)
        ensures
            final(self).shard_max_refs == old(self).shard_max_refs,
            ({
                let before = old(self).shards@;
                let after = final(self).shards@;
                let full = before.len() == 0 || before.last().refs@.len() >= old(self).shard_max_refs;
                &&& full ==> {
                    &&& after.len() == before.len() + 1
                    &&& after.drop_last() == before
                    &&& after.last().refs@ == seq![timeline_ref]
                    &&& after.last().shard_id@.len() == 36
                }
                &&& !full ==> {
                    &&& after.len() == before.len()
                    &&& after.drop_last() == before.drop_last()
                    &&& after.last().refs@ == before.last().refs@.push(timeline_ref)
                    &&& after.last().shard_id == before.last().shard_id
                }
                &&& id@ == after.last().shard_id@
            }),
            ref_count(final(self).shards@) == ref_count(old(self).shards@) + 1,
            old(self).shard_max_refs >= 1 && within_capacity(old(self).shards@, old(self).shard_max_refs)
                ==> within_capacity(final(self).shards@, final(self).shard_max_refs),
    {
        let needs_new = if self.shards.len() == 0 {
            true
        } else {
            self.shards[self.shards.len() - 1].refs.len() as u64 >= self.shard_max_refs
        };
        if needs_new {
            self.shards.push(TimelineShard { shard_id: new_uuid_v7(), refs: Vec::new() });
        }
        let ghost mid = self.shards@;
        let mut shard = self.shards.pop().unwrap();
        shard.refs.push(timeline_ref);
        let id = shard.shard_id.clone();
        self.shards.push(shard);
        assert(self.shards@.drop_last() =~= mid.drop_last());
        proof {
            let before = old(self).shards@;
            let after = self.shards@;
            assert(ref_count(after) == ref_count(after.drop_last()) + after.last().refs@.len());
            if needs_new {
                assert(after.drop_last() =~= before);
                assert(after.last().refs@.len() == 1);
            } else {
                assert(after.drop_last() =~= before.drop_last());
                assert(after.last().refs@.len() == before.last().refs@.len() + 1);
                assert(ref_count(before) == ref_count(before.drop_last()) + before.last().refs@.len());
            }
            if self.shard_max_refs >= 1 && within_capacity(before, self.shard_max_refs) {
                assert forall|j: int| 0 <= j < after.len() implies (#[trigger] after[j]).refs@.len() <= self.shard_max_refs by {
                    if j < after.len() - 1 {
                        assert(after[j] == after.drop_last()[j]);
                        if after.len() == before.len() {
                            assert(after.drop_last()[j] == before.drop_last()[j]);
                            assert(before.drop_last()[j] == before[j]);
                        } else {
                            assert(after.drop_last()[j] == before[j]);
                        }
                    }
                }
            }
        }
        id
    }

    /// The number of refs in all shards.
    pub fn total_refs(&self) -> (n: usize)
        requires
            ref_count(self.shards@) <= usize::MAX,
        ensures
            n == ref_count(self.shards@),
    {
        let mut total: usize = 0;
        let mut i: usize = 0;
        while i < self.shards.len()
            invariant
                i <= self.shards@.len(),
                total == ref_count(self.shards@.take(i as int)),
                ref_count(self.shards@) <= usize::MAX,
            decreases self.shards@.len() - i,
        {
            proof {
                assert(self.shards@.take(i + 1).drop_last() == self.shards@.take(i as int));
                lemma_ref_count_prefix(self.shards@, i + 1);
            }
            total = total + self.shards[i].refs.len();
            i = i + 1;
        }
        assert(self.shards@.take(self.shards@.len() as int) == self.shards@);
        total
    }

    /// The first ref, in shard order, whose id is `ref_id`.
    pub fn find_ref(&self, ref_id: &str) -> (r: Option<&TimelineRef>)
        ensures
            match first_ref_with_id(refs_from_shard(self.shards@, 0), ref_id@) {
                Some(i) => r == Some(&refs_from_shard(self.shards@, 0)[i]),
                None => r is None,
            },
    {
        let ghost sv = self.shards@;
        let ghost all = refs_from_shard(sv, 0);
        let mut i: usize = 0;
        let ghost mut seen: int = 0;
        while i < self.shards.len()
            invariant
                sv == self.shards@,
                all == refs_from_shard(sv, 0),
                i <= sv.len(),
                0 <= seen <= all.len(),
                all.skip(seen) == refs_from_shard(sv, i as int),
                forall|j: int| 0 <= j < seen ==> all[j].ref_id@ != ref_id@,
            decreases sv.len() - i,
        {
            let shard = &self.shards[i];
            assert(refs_from_shard(sv, i as int) == shard.refs@ + refs_from_shard(sv, i + 1));
            assert(all.skip(seen).len() == all.len() - seen);
            assert(seen + shard.refs@.len() <= all.len());
            let mut k: usize = 0;
            while k < shard.refs.len()
                invariant
                    sv == self.shards@,
                    all == refs_from_shard(sv, 0),
                    i < sv.len(),
                    *shard == sv[i as int],
                    k <= shard.refs@.len(),
                    0 <= seen,
                    seen + shard.refs@.len() <= all.len(),
                    all.skip(seen) == shard.refs@ + refs_from_shard(sv, i + 1),
                    forall|j: int| 0 <= j < seen + k ==> all[j].ref_id@ != ref_id@,
                decreases shard.refs@.len() - k,
            {
                assert(all[seen + k] == all.skip(seen)[k as int]);
                if str_eq(&shard.refs[k].ref_id, ref_id) {
                    proof {
                        let p = seen + k;
                        assert(all[p].ref_id@ == ref_id@);
                        let c = choose|c: int| 0 <= c < all.len() && all[c].ref_id@ == ref_id@
                            && forall|j: int| 0 <= j < c ==> all[j].ref_id@ != ref_id@;
                        if c < p {
                        } else if c > p {
                            assert(all[p].ref_id@ != ref_id@);
                        }
                    }
                    return Some(&shard.refs[k]);
                }
                k = k + 1;
            }
            proof {
                assert(all.skip(seen + shard.refs@.len() as int) =~= all.skip(seen).skip(shard.refs@.len() as int));
                assert((shard.refs@ + refs_from_shard(sv, i + 1)).skip(shard.refs@.len() as int) =~= refs_from_shard(sv, i + 1));
                seen = seen + shard.refs@.len();
            }
            i = i + 1;
        }
        proof {
            assert(all.skip(seen).len() == 0);
            assert(seen == all.len());
        }
        None
    }
}

/// Whether the first ref (in shard order) with id `ref_id` is ref `k` of
/// shard `i`.
pub open spec fn is_first_ref_at(shards: Seq<TimelineShard>, ref_id: Seq<char>, i: int, k: int) -> bool {
    &&& 0 <= i < shards.len()
    &&& 0 <= k < shards[i].refs@.len()
    &&& shards[i].refs@[k].ref_id@ == ref_id
    &&& forall|i2: int, k2: int| 0 <= i2 < i && 0 <= k2 < shards[i2].refs@.len()
        ==> (#[trigger] shards[i2].refs@[k2]).ref_id@ != ref_id
    &&& forall|k2: int| 0 <= k2 < k ==> (#[trigger] shards[i].refs@[k2]).ref_id@ != ref_id
}

/// Whether no ref has id `ref_id`.
pub open spec fn no_ref_with_id(shards: Seq<TimelineShard>, ref_id: Seq<char>) -> bool {
    forall|i: int, k: int| 0 <= i < shards.len() && 0 <= k < shards[i].refs@.len()
        ==> (#[trigger] shards[i].refs@[k]).ref_id@ != ref_id
}

/// Whether `after` is `before` with ref `k` of shard `i` replaced by `t`.
pub open spec fn ref_replaced(before: Seq<TimelineShard>, after: Seq<TimelineShard>, i: int, k: int, t: TimelineRef) -> bool {
    &&& after.len() == before.len()
    &&& forall|j: int| 0 <= j < before.len() && j != i ==> after[j] == before[j]
    &&& after[i].shard_id == before[i].shard_id
    &&& after[i].refs@ == before[i].refs@.update(k, t)
}

/// There is one first ref with a given id.
proof fn lemma_first_ref_unique(shards: Seq<TimelineShard>, ref_id: Seq<char>, i: int, k: int)
    requires
        is_first_ref_at(shards, ref_id, i, k),
    ensures
        forall|i2: int, k2: int| is_first_ref_at(shards, ref_id, i2, k2) ==> i2 == i && k2 == k,
{
    assert forall|i2: int, k2: int| is_first_ref_at(shards, ref_id, i2, k2) implies i2 == i && k2 == k by {
        if i2 < i {
            assert(shards[i2].refs@[k2].ref_id@ != ref_id);
        } else if i < i2 {
            assert(shards[i].refs@[k].ref_id@ != ref_id);
        } else if k2 < k {
            assert(shards[i].refs@[k2].ref_id@ != ref_id);
        } else if k < k2 {
            assert(shards[i].refs@[k].ref_id@ != ref_id);
        }
    }
}

/// Counting the first shards never exceeds counting all of them.
proof fn lemma_ref_count_prefix(shards: Seq<TimelineShard>, k: int)
    requires
        0 <= k <= shards.len(),
    ensures
        ref_count(shards.take(k)) <= ref_count(shards),
    decreases shards.len(),
{
    if k < shards.len() {
        assert(shards.drop_last().take(k) == shards.take(k));
        lemma_ref_count_prefix(shards.drop_last(), k);
    } else {
        assert(shards.take(k) == shards);
    }
}

/// The characters of Crockford's base32, in which ULIDs are written.
pub open spec fn crockford_char(c: char) -> bool {
    "0123456789ABCDEFGHJKMNPQRSTVWXYZ"@.contains(c)
}

/// `ulid::Ulid::generate` then `Ulid::to_string`: a fresh ULID (time plus
/// randomness) written as 26 Crockford base32 characters. Which ULID comes
/// back depends on the clock and on chance. The crate panics, on no input,
/// when the operating system's random source fails; nothing here rules that
/// environment failure out.
#[verifier::external_body]
fn new_ulid() -> (id: String)
    ensures
        id@.len() == 26,
        forall|i: int| 0 <= i < 26 ==> crockford_char(#[trigger] id@[i]),
{
    ulid::Ulid::generate().to_string()
}

/// Whether `v` is the JSON form of a new, active, unsigned timeline ref
/// without extension fields: an object with the fields author,
/// content_id, content_type, created_at, ref_id, signature (null) and
/// status (`Active`), in that order.
pub open spec fn is_new_ref_json(v: JsonValue, ref_id: Seq<char>, author: Seq<char>, content_type: Seq<char>,
    content_id: Seq<char>, created_at: Seq<char>) -> bool {
    &&& v matches JsonValue::Object(fs)
    &&& fs@.len() == 7
    &&& fs@[0].0@ == "author"@ && is_str(fs@[0].1, author)
    &&& fs@[1].0@ == "content_id"@ && is_str(fs@[1].1, content_id)
    &&& fs@[2].0@ == "content_type"@ && is_str(fs@[2].1, content_type)
    &&& fs@[3].0@ == "created_at"@ && is_str(fs@[3].1, created_at)
    &&& fs@[4].0@ == "ref_id"@ && is_str(fs@[4].1, ref_id)
    &&& fs@[5].0@ == "signature"@ && fs@[5].1 is Null
    &&& fs@[6].0@ == "status"@ && is_str(fs@[6].1, "Active"@)
}

/// Whether `after` is `before` with a new ref recorded: `ref_id`, status
/// `Active`, `created_at` and the ref's JSON under `timeline_ref`, the ref
/// taking its author, content type (`immutable` by default) and content id
/// from the context.
pub open spec fn new_ref_recorded(before: HookContext, after: HookContext, ref_id: Seq<char>, created_at: Seq<char>) -> bool {
    let author = str_or(field(before.data@, "author"@), Seq::empty());
    let content_type = str_or(field(before.data@, "content_type"@), "immutable"@);
    let content_id = str_or(field(before.data@, "content_id"@), Seq::empty());
    &&& field(after.data@, "ref_id"@) matches Some(JsonValue::Str(x)) && x@ == ref_id
    &&& field(after.data@, "status"@) matches Some(JsonValue::Str(x)) && x@ == "Active"@
    &&& field(after.data@, "created_at"@) matches Some(JsonValue::Str(x)) && x@ == created_at
    &&& field(after.data@, "timeline_ref"@) matches Some(v)
        && is_new_ref_json(v, ref_id, author, content_type, content_id, created_at)
    &&& forall|k: Seq<char>| k != "ref_id"@ && k != "status"@ && k != "created_at"@ && k != "timeline_ref"@
        ==> #[trigger] field(after.data@, k) == field(before.data@, k)
    &&& after == (HookContext { data: after.data, ..before })
}

/// The JSON form of a new ref.
fn new_ref_json(ref_id: &str, author: &str, content_type: &str, content_id: &str, created_at: &str) -> (v: JsonValue)
    ensures
        is_new_ref_json(v, ref_id@, author@, content_type@, content_id@, created_at@),
{
    let mut fs: Vec<(String, JsonValue)> = Vec::new();
    fs.push((copy_str("author"), JsonValue::Str(copy_str(author))));
    fs.push((copy_str("content_id"), JsonValue::Str(copy_str(content_id))));
    fs.push((copy_str("content_type"), JsonValue::Str(copy_str(content_type))));
    fs.push((copy_str("created_at"), JsonValue::Str(copy_str(created_at))));
    fs.push((copy_str("ref_id"), JsonValue::Str(copy_str(ref_id))));
    fs.push((copy_str("signature"), JsonValue::Null));
    fs.push((copy_str("status"), JsonValue::Str(copy_str("Active"))));
    JsonValue::Object(fs)
}

/// Records a new ref with id `ref_id`, created `now_secs` seconds after
/// the Unix epoch, in the context.
pub fn record_new_ref(ctx: &mut HookContext, ref_id: &str, now_secs: u64)
    ensures
        new_ref_recorded(*old(ctx), *final(ctx), ref_id@, iso8601_text(now_secs as nat)),
{
    let author = string_field_or(&ctx.data, "author", "");
    let content_type = string_field_or(&ctx.data, "content_type", "immutable");
    let content_id = string_field_or(&ctx.data, "content_id", "");
    let created_at = format_iso8601(now_secs);
    let json = new_ref_json(ref_id, &author, &content_type, &content_id, &created_at);
    let ghost gj = json;
    let ghost before = *ctx;
    assert(before == *old(ctx));
    set_field(&mut ctx.data, "ref_id", JsonValue::Str(copy_str(ref_id)));
    let ghost d1 = ctx.data@;
    set_field(&mut ctx.data, "status", JsonValue::Str(copy_str("Active")));
    let ghost d2 = ctx.data@;
    set_field(&mut ctx.data, "created_at", JsonValue::Str(created_at));
    let ghost d3 = ctx.data@;
    set_field(&mut ctx.data, "timeline_ref", json);
    proof {
        reveal_strlit("");
        reveal_strlit("ref_id");
        reveal_strlit("status");
        reveal_strlit("created_at");
        reveal_strlit("timeline_ref");
        assert("ref_id"@[0] != "status"@[0]);
        assert("ref_id"@[0] != "created_at"@[0]);
        assert("ref_id"@[0] != "timeline_ref"@[0]);
        assert("status"@[0] != "created_at"@[0]);
        assert("status"@[0] != "timeline_ref"@[0]);
        assert("created_at"@[0] != "timeline_ref"@[0]);
        let after = ctx.data@;
        assert(field(after, "ref_id"@) == field(d1, "ref_id"@));
        assert(field(after, "status"@) == field(d2, "status"@));
        assert(field(after, "created_at"@) == field(d3, "created_at"@));
        assert forall|k: Seq<char>| k != "ref_id"@ && k != "status"@ && k != "created_at"@ && k != "timeline_ref"@
            implies #[trigger] field(after, k) == field(before.data@, k) by {
            assert(field(after, k) == field(d3, k));
            assert(field(d3, k) == field(d2, k));
            assert(field(d2, k) == field(d1, k));
            assert(field(d1, k) == field(before.data@, k));
        }
        assert(*ctx == (HookContext { data: ctx.data, ..before }));
        assert(field(after, "timeline_ref"@) == Some(gj));
        assert(author@ == str_or(field(before.data@, "author"@), Seq::empty()));
        assert(content_id@ == str_or(field(before.data@, "content_id"@), Seq::empty()));
        assert(content_type@ == str_or(field(before.data@, "content_type"@), "immutable"@));
        assert(is_new_ref_json(gj, ref_id@, author@, content_type@, content_id@, created_at@));
    }
}

/// The step that gives each new timeline ref its id, status and time.
pub struct GenerateRef;

/// The `timeline.generate_ref` hook: before a ref is inserted into the
/// timeline index (priority 20), it gets a fresh ULID, status `Active` and
/// the current time.
pub fn generate_ref_hook() -> (h: (HookDeclaration, GenerateRef))
    ensures
        h.0.id@ == "timeline.generate_ref"@,
        h.0.phase == HookPhase::PreSend,
        h.0.trigger_datatype@ == "timeline_index"@,
        h.0.trigger_event == TriggerEvent::Insert,
        h.0.trigger_filter is None,
        h.0.priority == 20,
        h.0.source@ == "timeline"@,
{
    let decl = HookDeclaration {
        id: copy_str("timeline.generate_ref"),
        phase: HookPhase::PreSend,
        trigger_datatype: copy_str("timeline_index"),
        trigger_event: TriggerEvent::Insert,
        trigger_filter: None,
        priority: 20,
        source: copy_str("timeline"),
    };
    (decl, GenerateRef)
}

impl HookHandler for GenerateRef {
    /// Records a new ref with a fresh 26-character ULID and the current
    /// time (whole seconds since the Unix epoch, UTC).
    open spec fn handles(&self, before: HookContext, after: HookContext, r: Result<(), EngineError>) -> bool {
        &&& r is Ok
        &&& exists|id: Seq<char>, secs: nat| #![trigger new_ref_recorded(before, after, id, iso8601_text(secs))]
            id.len() == 26 && (forall|i: int| 0 <= i < 26 ==> crockford_char(#[trigger] id[i]))
                && new_ref_recorded(before, after, id, iso8601_text(secs))
    }

    fn call(&self, ctx: &mut HookContext) -> (r: Result<(), EngineError>) {
        let id = new_ulid();
        let millis = unix_millis();
        let secs: u64 = if millis >= 0 { (millis / 1000) as u64 } else { 0 };
        record_new_ref(ctx, &id, secs);
        Ok(())
    }
}

/// The refs a timeline write added: the written ref when it is active.
pub open spec fn added_refs(written: Option<TimelineRef>) -> Seq<Seq<char>> {
    match written {
        Some(r) if r.status == RefStatus::Active => seq![r.ref_id@],
        _ => Seq::empty(),
    }
}

/// The refs a timeline write withdrew: the `deleted_ref_id` string of its
/// data, if any.
pub open spec fn withdrawn_refs(data: Seq<(String, JsonValue)>) -> Seq<Seq<char>> {
    match field(data, "deleted_ref_id"@) {
        Some(JsonValue::Str(id)) => seq![id@],
        _ => Seq::empty(),
    }
}

/// Lists in the write's data the refs it added (`new_refs`: the written ref,
/// `written`, when it is active) and withdrew (`deleted_refs`: the
/// `deleted_ref_id` of the data), for the hooks and listeners that follow.
pub fn record_ref_changes(ctx: &mut HookContext, written: Option<&TimelineRef>)
    ensures
        ({
            let w = match written { Some(r) => Some(*r), None => None };
            &&& field(final(ctx).data@, "new_refs"@) matches Some(v) && is_string_array(v, added_refs(w))
        }),
        field(final(ctx).data@, "deleted_refs"@) matches Some(v)
            && is_string_array(v, withdrawn_refs(old(ctx).data@)),
        forall|k: Seq<char>| k != "new_refs"@ && k != "deleted_refs"@
            ==> #[trigger] field(final(ctx).data@, k) == field(old(ctx).data@, k),
        final(ctx).signer_id == old(ctx).signer_id,
        final(ctx).room_id == old(ctx).room_id,
        final(ctx).rejected == old(ctx).rejected,
{
    let mut new_refs: Vec<String> = Vec::new();
    if let Some(r) = written {
        if let RefStatus::Active = r.status {
            new_refs.push(copy_str(&r.ref_id));
        }
    }
    let mut deleted_refs: Vec<String> = Vec::new();
    if let Some(JsonValue::Str(id)) = get_field(&ctx.data, "deleted_ref_id") {
        deleted_refs.push(copy_str(id));
    }
    let ghost old_data = ctx.data@;
    proof {
        let w = match written { Some(r) => Some(*r), None => None };
        assert(new_refs@.map_values(|s: String| s@) =~= added_refs(w));
        assert(deleted_refs@.map_values(|s: String| s@) =~= withdrawn_refs(old_data));
    }
    let a = string_array(&new_refs);
    let d = string_array(&deleted_refs);
    set_field(&mut ctx.data, "new_refs", a);
    proof {
        reveal_strlit("new_refs");
        reveal_strlit("deleted_refs");
        assert("new_refs"@.len() != "deleted_refs"@.len());
    }
    set_field(&mut ctx.data, "deleted_refs", d);
}

/// The page size a timeline read asks for: its non-negative `limit` number,
/// 50 without one.
pub fn page_limit(data: &Vec<(String, JsonValue)>) -> (n: usize)
    ensures
        n == match field(data@, "limit"@) {
            Some(JsonValue::Number(l)) if l >= 0 => l as usize,
            _ => 50usize,
        },
{
    match get_field(data, "limit") {
        Some(JsonValue::Number(l)) => {
            if *l >= 0 {
                *l as usize
            } else {
                50
            }
        },
        _ => 50,
    }
}

/// The declaration of the `timeline.ref_change_detect` hook: after any
/// write to the timeline index (priority 30) it lists the refs the write
/// added and withdrew (see [`record_ref_changes`]).
pub fn ref_change_detect_decl() -> (d: HookDeclaration)
    ensures
        d.id@ == "timeline.ref_change_detect"@,
        d.phase == HookPhase::AfterWrite,
        d.trigger_datatype@ == "timeline_index"@,
        d.trigger_event == TriggerEvent::Any,
        d.trigger_filter is None,
        d.priority == 30,
        d.source@ == "timeline"@,
{
    HookDeclaration {
        id: copy_str("timeline.ref_change_detect"),
        phase: HookPhase::AfterWrite,
        trigger_datatype: copy_str("timeline_index"),
        trigger_event: TriggerEvent::Any,
        trigger_filter: None,
        priority: 30,
        source: copy_str("timeline"),
    }
}

/// The declaration of the `timeline.timeline_pagination` hook: after any
/// read of the timeline index (priority 30) it cuts the refs into the
/// requested page (see [`paginate`] and [`page_limit`]).
pub fn timeline_pagination_decl() -> (d: HookDeclaration)
    ensures
        d.id@ == "timeline.timeline_pagination"@,
        d.phase == HookPhase::AfterRead,
        d.trigger_datatype@ == "timeline_index"@,
        d.trigger_event == TriggerEvent::Any,
        d.trigger_filter is None,
        d.priority == 30,
        d.source@ == "timeline"@,
{
    HookDeclaration {
        id: copy_str("timeline.timeline_pagination"),
        phase: HookPhase::AfterRead,
        trigger_datatype: copy_str("timeline_index"),
        trigger_event: TriggerEvent::Any,
        trigger_filter: None,
        priority: 30,
        source: copy_str("timeline"),
    }
}

} // verus!
