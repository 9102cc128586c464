//! Compact JSON text: no whitespace, object keys in sorted order, strings
//! escaped as `serde_json` escapes them. This is the canonical form that
//! content ids are computed from.
use vstd::prelude::*;
use crate::json::JsonValue;
use crate::text::{chars_of, decimal, lex_le, lex_lt, lemma_lex_irreflexive, lemma_lex_total, lemma_lex_transitive, push_char,
    str_lt, u64_to_decimal};
use crate::builtins::message::{hex_digit, hex_digit_char};

verus! {

/// The escape of one character inside a JSON string: `\"`, `\\`, the short
/// escapes `\b \t \n \f \r`, `\u00XX` (lowercase hex) for the other
/// characters below U+0020, and the character itself otherwise.
pub open spec fn escaped_char(c: char) -> Seq<char> {
    if c == '"' {
        seq!['\\', '"']
    } else if c == '\\' {
        seq!['\\', '\\']
    } else if c == '\x08' {
        seq!['\\', 'b']
    } else if c == '\t' {
        seq!['\\', 't']
    } else if c == '\n' {
        seq!['\\', 'n']
    } else if c == '\x0c' {
        seq!['\\', 'f']
    } else if c == '\r' {
        seq!['\\', 'r']
    } else if (c as u32) < 0x20 {
        seq!['\\', 'u', '0', '0', hex_digit((c as u32 / 16) as nat), hex_digit((c as u32 % 16) as nat)]
    } else {
        seq![c]
    }
}

/// The escaped characters of `s`, in order.
pub open spec fn escaped(s: Seq<char>) -> Seq<char>
    decreases s.len(),
{
    if s.len() == 0 {
        Seq::empty()
    } else {
        escaped(s.drop_last()) + escaped_char(s.last())
    }
}

/// `s` as a JSON string.
pub open spec fn quoted(s: Seq<char>) -> Seq<char> {
    seq!['"'] + escaped(s) + seq!['"']
}

/// The decimal text of `n`, with a leading `-` when negative.
pub open spec fn int_text(n: i64) -> Seq<char> {
    if n < 0 {
        seq!['-'] + decimal((-n) as nat)
    } else {
        decimal(n as nat)
    }
}

/// Where the entry at `k` of `fs` goes among the entries listed by `ord`:
/// before the first one whose key is greater, or at the end.
pub open spec fn key_pos(fs: Seq<(String, JsonValue)>, ord: Seq<int>, k: int) -> int
    decreases ord.len(),
{
    if ord.len() == 0 {
        0
    } else if lex_lt(fs[k].0@, fs[ord[0]].0@) {
        0
    } else {
        1 + key_pos(fs, ord.drop_first(), k)
    }
}

/// The positions of the first `n` entries of `fs` in order of their keys;
/// entries with the same key keep their order.
pub open spec fn key_order(fs: Seq<(String, JsonValue)>, n: nat) -> Seq<int>
    decreases n,
{
    if n == 0 {
        Seq::empty()
    } else {
        let ord = key_order(fs, (n - 1) as nat);
        ord.insert(key_pos(fs, ord, n - 1), n - 1)
    }
}

/// The JSON text of `v`.
pub open spec fn json_text(v: JsonValue) -> Seq<char>
    decreases v, 0int,
{
    match v {
        JsonValue::Null => "null"@,
        JsonValue::Bool(b) => if b { "true"@ } else { "false"@ },
        JsonValue::Number(n) => int_text(n),
        JsonValue::Str(s) => quoted(s@),
        JsonValue::Array(a) => seq!['['] + items_text(a@) + seq![']'],
        JsonValue::Object(fs) => seq!['{'] + entries_text(fs@, key_order(fs@, fs@.len())) + seq!['}'],
    }
}

/// The JSON texts of `items`, separated by commas.
pub open spec fn items_text(items: Seq<JsonValue>) -> Seq<char>
    decreases items, 0int,
{
    if items.len() == 0 {
        Seq::empty()
    } else if items.len() == 1 {
        json_text(items[0])
    } else {
        items_text(items.drop_last()) + seq![','] + json_text(items.last())
    }
}

/// The text `"key":value` of the entry at `j` of `fs`.
pub open spec fn entry_text(fs: Seq<(String, JsonValue)>, j: int) -> Seq<char>
    decreases fs, 0int,
{
    if 0 <= j < fs.len() {
        quoted(fs[j].0@) + seq![':'] + json_text(fs[j].1)
    } else {
        Seq::empty()
    }
}

/// The texts of the entries of `fs` at the positions `ord`, separated by
/// commas.
pub open spec fn entries_text(fs: Seq<(String, JsonValue)>, ord: Seq<int>) -> Seq<char>
    decreases fs, ord.len(),
{
    if ord.len() == 0 {
        Seq::empty()
    } else if ord.len() == 1 {
        entry_text(fs, ord[0])
    } else {
        entries_text(fs, ord.drop_last()) + seq![','] + entry_text(fs, ord.last())
    }
}

/// Appends the escape of `c`.
fn push_escaped_char(out: &mut String, c: char)
    ensures
        final(out)@ == old(out)@ + escaped_char(c),
{
    let ghost before = out@;
    if c == '"' {
        push_char(out, '\\');
        push_char(out, '"');
    } else if c == '\\' {
        push_char(out, '\\');
        push_char(out, '\\');
    } else if c == '\x08' {
        push_char(out, '\\');
        push_char(out, 'b');
    } else if c == '\t' {
        push_char(out, '\\');
        push_char(out, 't');
    } else if c == '\n' {
        push_char(out, '\\');
        push_char(out, 'n');
    } else if c == '\x0c' {
        push_char(out, '\\');
        push_char(out, 'f');
    } else if c == '\r' {
        push_char(out, '\\');
        push_char(out, 'r');
    } else if (c as u32) < 0x20 {
        let code: u8 = c as u8;
        assert(code as u32 == c as u32);
        push_char(out, '\\');
        push_char(out, 'u');
        push_char(out, '0');
        push_char(out, '0');
        push_char(out, hex_digit_char(code / 16));
        push_char(out, hex_digit_char(code % 16));
    } else {
        push_char(out, c);
    }
    assert(out@ =~= before + escaped_char(c));
}

/// Appends `s` as a JSON string.
pub fn push_quoted(out: &mut String, s: &str)
    ensures
        final(out)@ == old(out)@ + quoted(s@),
{
    let cs = chars_of(s);
    let ghost start = out@;
    push_char(out, '"');
    let mut i: usize = 0;
    while i < cs.len()
        invariant
            cs@ == s@,
            i <= cs@.len(),
            out@ == start + seq!['"'] + escaped(cs@.take(i as int)),
        decreases cs@.len() - i,
    {
        assert(cs@.take(i as int + 1).drop_last() =~= cs@.take(i as int));
        push_escaped_char(out, cs[i]);
        assert(out@ =~= start + seq!['"'] + escaped(cs@.take(i as int + 1)));
        i = i + 1;
    }
    assert(cs@.take(cs@.len() as int) =~= s@);
    push_char(out, '"');
    assert(out@ =~= start + quoted(s@));
}

/// Appends the decimal text of `n`.
pub fn push_int(out: &mut String, n: i64)
    ensures
        final(out)@ == old(out)@ + int_text(n),
{
    let ghost start = out@;
    if n < 0 {
        push_char(out, '-');
        let m: u64 = (-(n as i128)) as u64;
        let d = u64_to_decimal(m);
        out.append(d.as_str());
        assert(out@ =~= start + int_text(n));
    } else {
        let d = u64_to_decimal(n as u64);
        out.append(d.as_str());
        assert(out@ =~= start + int_text(n));
    }
}

/// The positions of `ord` as integers.
pub open spec fn positions(ord: Seq<usize>) -> Seq<int> {
    ord.map_values(|x: usize| x as int)
}

/// An entry goes at most one past the end.
proof fn lemma_key_pos_bound(fs: Seq<(String, JsonValue)>, ord: Seq<int>, k: int)
    ensures
        0 <= key_pos(fs, ord, k) <= ord.len(),
    decreases ord.len(),
{
    if ord.len() > 0 {
        lemma_key_pos_bound(fs, ord.drop_first(), k);
    }
}

/// `ord` lists positions of `fs` with keys in alphabetical order, entries
/// with equal keys in their order in `fs`.
pub open spec fn keys_sorted(fs: Seq<(String, JsonValue)>, ord: Seq<int>) -> bool {
    &&& forall|i: int, j: int| 0 <= i < j < ord.len() ==> lex_le(fs[#[trigger] ord[i]].0@, fs[#[trigger] ord[j]].0@)
    &&& forall|i: int, j: int| 0 <= i < j < ord.len() && fs[#[trigger] ord[i]].0@ == fs[#[trigger] ord[j]].0@
        ==> ord[i] < ord[j]
}

/// The place `key_pos` picks: after every entry whose key is not greater,
/// before the first whose key is greater.
proof fn lemma_key_pos_place(fs: Seq<(String, JsonValue)>, ord: Seq<int>, k: int)
    ensures
        0 <= key_pos(fs, ord, k) <= ord.len(),
        forall|i: int| 0 <= i < key_pos(fs, ord, k) ==> !lex_lt(fs[k].0@, fs[#[trigger] ord[i]].0@),
        key_pos(fs, ord, k) < ord.len() ==> lex_lt(fs[k].0@, fs[ord[key_pos(fs, ord, k)]].0@),
    decreases ord.len(),
{
    if ord.len() > 0 && !lex_lt(fs[k].0@, fs[ord[0]].0@) {
        let rest = ord.drop_first();
        lemma_key_pos_place(fs, rest, k);
        assert forall|i: int| 0 <= i < key_pos(fs, ord, k) implies !lex_lt(fs[k].0@, fs[#[trigger] ord[i]].0@) by {
            if i > 0 {
                assert(ord[i] == rest[i - 1]);
            }
        }
        if key_pos(fs, ord, k) < ord.len() {
            assert(ord[key_pos(fs, ord, k)] == rest[key_pos(fs, rest, k)]);
        }
    }
}

/// Canonical JSON writes object keys in alphabetical order, whatever their
/// lengths: `key_order(fs, n)` lists each of the first `n` entries of `fs`
/// once, keys never decreasing along it, and entries with the same key in
/// their original order.
pub proof fn lemma_key_order_sorted(fs: Seq<(String, JsonValue)>, n: nat)
    requires
        n <= fs.len(),
    ensures
        key_order(fs, n).len() == n,
        key_order(fs, n).no_duplicates(),
        forall|i: int| 0 <= i < n ==> 0 <= #[trigger] key_order(fs, n)[i] < n,
        keys_sorted(fs, key_order(fs, n)),
    decreases n,
{
    if n > 0 {
        let k = n - 1;
        lemma_key_order_sorted(fs, (n - 1) as nat);
        let ord = key_order(fs, (n - 1) as nat);
        lemma_key_pos_place(fs, ord, k);
        let p = key_pos(fs, ord, k);
        let new = ord.insert(p, k);
        assert(key_order(fs, n) == new);
        let kk = fs[k].0@;
        assert forall|x: int| 0 <= x < new.len() implies #[trigger] new[x] == (if x < p { ord[x] } else if x == p { k } else { ord[x - 1] }) by {}
        // Keys before the new entry are not greater than its key, keys after it are greater.
        assert forall|x: int| 0 <= x < p implies lex_le(fs[#[trigger] ord[x]].0@, kk) by {
            lemma_lex_total(fs[ord[x]].0@, kk);
        }
        assert forall|x: int| p <= x < ord.len() implies lex_lt(kk, fs[#[trigger] ord[x]].0@) by {
            if x > p {
                assert(lex_le(fs[ord[p]].0@, fs[ord[x]].0@));
                if fs[ord[p]].0@ != fs[ord[x]].0@ {
                    lemma_lex_transitive(kk, fs[ord[p]].0@, fs[ord[x]].0@);
                }
            }
        }
        assert forall|i: int, j: int| 0 <= i < j < new.len() implies lex_le(fs[#[trigger] new[i]].0@, fs[#[trigger] new[j]].0@) by {
            if j < p {
                assert(new[i] == ord[i] && new[j] == ord[j]);
            } else if j == p {
                assert(new[i] == ord[i]);
            } else if i < p {
                assert(new[i] == ord[i] && new[j] == ord[j - 1]);
                assert(lex_le(fs[ord[i]].0@, kk));
                assert(lex_lt(kk, fs[ord[j - 1]].0@));
                if fs[ord[i]].0@ != kk {
                    lemma_lex_transitive(fs[ord[i]].0@, kk, fs[ord[j - 1]].0@);
                }
            } else if i == p {
                assert(new[j] == ord[j - 1]);
            } else {
                assert(new[i] == ord[i - 1] && new[j] == ord[j - 1]);
            }
        }
        assert forall|i: int, j: int| 0 <= i < j < new.len() && fs[#[trigger] new[i]].0@ == fs[#[trigger] new[j]].0@
            implies new[i] < new[j] by {
            if j < p {
                assert(new[i] == ord[i] && new[j] == ord[j]);
            } else if j == p {
                assert(new[i] == ord[i]);
            } else if i < p {
                assert(new[i] == ord[i] && new[j] == ord[j - 1]);
            } else if i == p {
                assert(new[j] == ord[j - 1]);
                assert(lex_lt(kk, fs[ord[j - 1]].0@));
                lemma_lex_irreflexive(kk);
            } else {
                assert(new[i] == ord[i - 1] && new[j] == ord[j - 1]);
            }
        }
        assert forall|i: int| 0 <= i < n implies 0 <= #[trigger] new[i] < n by {
            if i < p { assert(new[i] == ord[i]); } else if i > p { assert(new[i] == ord[i - 1]); }
        }
        assert forall|i: int, j: int| 0 <= i < j < new.len() implies new[i] != new[j] by {
            if j < p {
                assert(new[i] == ord[i] && new[j] == ord[j]);
            } else if j == p {
                assert(new[i] == ord[i]);
            } else if i < p {
                assert(new[i] == ord[i] && new[j] == ord[j - 1]);
            } else if i == p {
                assert(new[j] == ord[j - 1]);
            } else {
                assert(new[i] == ord[i - 1] && new[j] == ord[j - 1]);
            }
        }
    }
}

/// Where entry `k` of `fs` goes among the entries listed by `ord`.
fn find_key_pos(fs: &Vec<(String, JsonValue)>, ord: &Vec<usize>, k: usize) -> (p: usize)
    requires
        k < fs@.len(),
        forall|j: int| 0 <= j < ord@.len() ==> ord@[j] < fs@.len(),
    ensures
        p as int == key_pos(fs@, positions(ord@), k as int),
        p <= ord@.len(),
{
    let ghost o = positions(ord@);
    assert(o.skip(0) =~= o);
    let mut j: usize = 0;
    while j < ord.len()
        invariant
            o == positions(ord@),
            k < fs@.len(),
            forall|t: int| 0 <= t < ord@.len() ==> ord@[t] < fs@.len(),
            j <= ord@.len(),
            key_pos(fs@, o, k as int) == j + key_pos(fs@, o.skip(j as int), k as int),
        decreases ord@.len() - j,
    {
        let t = ord[j];
        assert(o.skip(j as int)[0] == t as int);
        if str_lt(fs[k].0.as_str(), fs[t].0.as_str()) {
            return j;
        }
        assert(o.skip(j as int).drop_first() =~= o.skip(j as int + 1));
        j = j + 1;
    }
    proof { lemma_key_pos_bound(fs@, o, k as int); }
    j
}

/// The positions of the entries of `fs` in order of their keys (see
/// `key_order`).
pub fn key_order_of(fs: &Vec<(String, JsonValue)>) -> (ord: Vec<usize>)
    ensures
        positions(ord@) == key_order(fs@, fs@.len()),
        forall|j: int| 0 <= j < ord@.len() ==> ord@[j] < fs@.len(),
{
    let mut ord: Vec<usize> = Vec::new();
    let mut i: usize = 0;
    while i < fs.len()
        invariant
            i <= fs@.len(),
            positions(ord@) == key_order(fs@, i as nat),
            forall|j: int| 0 <= j < ord@.len() ==> ord@[j] < i,
        decreases fs@.len() - i,
    {
        let p = find_key_pos(fs, &ord, i);
        let ghost before = ord@;
        ord.insert(p, i);
        proof {
            assert(positions(ord@) =~= positions(before).insert(p as int, i as int));
            assert forall|j: int| 0 <= j < ord@.len() implies ord@[j] < i + 1 by {
                if j < p {
                    assert(ord@[j] == before[j]);
                } else if j > p {
                    assert(ord@[j] == before[j - 1]);
                }
            }
        }
        i = i + 1;
    }
    ord
}

/// Appends the JSON text of `v`.
pub fn push_json(out: &mut String, v: &JsonValue)
    ensures
        final(out)@ == old(out)@ + json_text(*v),
    decreases v,
{
    let ghost start = out@;
    match v {
        JsonValue::Null => {
            out.append("null");
        },
        JsonValue::Bool(b) => {
            if *b {
                out.append("true");
            } else {
                out.append("false");
            }
        },
        JsonValue::Number(n) => {
            push_int(out, *n);
        },
        JsonValue::Str(s) => {
            push_quoted(out, s.as_str());
        },
        JsonValue::Array(a) => {
            push_char(out, '[');
            let mut i: usize = 0;
            while i < a.len()
                invariant
                    *v == JsonValue::Array(*a),
                    i <= a@.len(),
                    out@ == start + seq!['['] + items_text(a@.take(i as int)),
                decreases a@.len() - i,
            {
                proof {
                    assert(decreases_to!(*v => v->Array_0));
                    assert(decreases_to!(*a => a@));
                    assert(decreases_to!(a@ => a@[i as int]));
                }
                let ghost mid = out@;
                if i > 0 {
                    push_char(out, ',');
                }
                push_json(out, &a[i]);
                proof {
                    let t = a@.take(i as int + 1);
                    assert(t.drop_last() =~= a@.take(i as int));
                    assert(t.last() == a@[i as int]);
                    if i == 0 {
                        assert(t.len() == 1);
                        assert(t[0] == a@[0]);
                        assert(a@.take(0) =~= Seq::<JsonValue>::empty());
                    }
                    assert(out@ =~= start + seq!['['] + items_text(t));
                }
                i = i + 1;
            }
            proof { assert(a@.take(a@.len() as int) =~= a@); }
            push_char(out, ']');
            assert(out@ =~= start + json_text(*v));
        },
        JsonValue::Object(fs) => {
            let ord = key_order_of(fs);
            let ghost o = positions(ord@);
            push_char(out, '{');
            let mut k: usize = 0;
            while k < ord.len()
                invariant
                    *v == JsonValue::Object(*fs),
                    o == positions(ord@),
                    o == key_order(fs@, fs@.len()),
                    forall|j: int| 0 <= j < ord@.len() ==> ord@[j] < fs@.len(),
                    k <= ord@.len(),
                    out@ == start + seq!['{'] + entries_text(fs@, o.take(k as int)),
                decreases ord@.len() - k,
            {
                let j = ord[k];
                proof {
                    assert(decreases_to!(*v => v->Object_0));
                    assert(decreases_to!(*fs => fs@));
                    assert(decreases_to!(fs@ => fs@[j as int]));
                    assert(decreases_to!(fs@[j as int] => fs@[j as int].1));
                }
                let ghost before_k = out@;
                if k > 0 {
                    push_char(out, ',');
                }
                let ghost after_sep = out@;
                push_quoted(out, fs[j].0.as_str());
                push_char(out, ':');
                push_json(out, &fs[j].1);
                proof {
                    assert(entry_text(fs@, j as int) == quoted(fs@[j as int].0@) + seq![':'] + json_text(fs@[j as int].1));
                    assert(out@ =~= after_sep + entry_text(fs@, j as int));
                    let t = o.take(k as int + 1);
                    assert(t.drop_last() =~= o.take(k as int));
                    assert(t.last() == j as int);
                    if k == 0 {
                        assert(t.len() == 1);
                        assert(t[0] == j as int);
                        assert(o.take(0) =~= Seq::<int>::empty());
                    }
                    assert(out@ =~= start + seq!['{'] + entries_text(fs@, t));
                }
                k = k + 1;
            }
            proof { assert(o.take(o.len() as int) =~= o); }
            push_char(out, '}');
            assert(out@ =~= start + json_text(*v));
        },
    }
}

} // verus!
