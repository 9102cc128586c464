//! A plain JSON value, as carried in hook contexts and extension payloads.
use vstd::prelude::*;
use crate::text::{copy_str, str_eq};

verus! {

/// A JSON value. Numbers are integers; objects keep their fields in
/// insertion order.
#[derive(Debug)]
pub enum JsonValue {
    Null,
    Bool(bool),
    Number(i64),
    Str(String),
    Array(Vec<JsonValue>),
    Object(Vec<(String, JsonValue)>),
}

/// The value under `key` in a JSON object's fields (the first such field).
pub open spec fn field(fields: Seq<(String, JsonValue)>, key: Seq<char>) -> Option<JsonValue>
    decreases fields.len(),
{
    if fields.len() == 0 {
        None
    } else if fields[0].0@ == key {
        Some(fields[0].1)
    } else {
        field(fields.drop_first(), key)
    }
}

/// The field `key` of a JSON object's fields.
pub fn get_field<'a>(fields: &'a Vec<(String, JsonValue)>, key: &str) -> (r: Option<&'a JsonValue>)
    ensures
        match field(fields@, key@) {
            Some(v) => r == Some(&v),
            None => r is None,
        },
{
    let mut i: usize = 0;
    assert(fields@.skip(0) == fields@);
    while i < fields.len()
        invariant
            i <= fields@.len(),
            field(fields@, key@) == field(fields@.skip(i as int), key@),
        decreases fields@.len() - i,
    {
        assert(fields@.skip(i as int).drop_first() == fields@.skip(i + 1));
        assert(fields@.skip(i as int)[0] == fields@[i as int]);
        if str_eq(&fields[i].0, key) {
            return Some(&fields[i].1);
        }
        i = i + 1;
    }
    None
}


/// The field found at the first position of its key.
pub proof fn lemma_field_at(fields: Seq<(String, JsonValue)>, key: Seq<char>, i: int)
    requires
        0 <= i < fields.len(),
        fields[i].0@ == key,
        forall|j: int| 0 <= j < i ==> fields[j].0@ != key,
    ensures
        field(fields, key) == Some(fields[i].1),
    decreases i,
{
    if i > 0 {
        let rest = fields.drop_first();
        assert forall|j: int| 0 <= j < i - 1 implies rest[j].0@ != key by {
            assert(rest[j] == fields[j + 1]);
        }
        assert(rest[i - 1] == fields[i]);
        lemma_field_at(rest, key, i - 1);
    }
}

/// A key that no field has is not found.
pub proof fn lemma_field_none(fields: Seq<(String, JsonValue)>, key: Seq<char>)
    requires
        forall|i: int| 0 <= i < fields.len() ==> fields[i].0@ != key,
    ensures
        field(fields, key) is None,
    decreases fields.len(),
{
    if fields.len() > 0 {
        let rest = fields.drop_first();
        assert forall|i: int| 0 <= i < rest.len() implies rest[i].0@ != key by {
            assert(rest[i] == fields[i + 1]);
        }
        lemma_field_none(rest, key);
    }
}

/// What `field` finds: the value at the first position of the key, or
/// nothing when no field has the key.
pub proof fn lemma_field_props(fields: Seq<(String, JsonValue)>, key: Seq<char>)
    ensures
        field(fields, key) is None <==> forall|i: int| 0 <= i < fields.len() ==> fields[i].0@ != key,
        field(fields, key) is Some ==> exists|i: int| 0 <= i < fields.len() && fields[i].0@ == key
            && field(fields, key) == Some(fields[i].1) && forall|j: int| 0 <= j < i ==> fields[j].0@ != key,
    decreases fields.len(),
{
    if fields.len() > 0 {
        let rest = fields.drop_first();
        lemma_field_props(rest, key);
        if fields[0].0@ != key {
            assert forall|i: int| 0 <= i < rest.len() implies rest[i] == fields[i + 1] by {}
            if field(rest, key) is Some {
                let i = choose|i: int| 0 <= i < rest.len() && rest[i].0@ == key
                    && field(rest, key) == Some(rest[i].1) && forall|j: int| 0 <= j < i ==> rest[j].0@ != key;
                assert(fields[i + 1] == rest[i]);
                assert forall|j: int| 0 <= j < i + 1 implies fields[j].0@ != key by {
                    if j > 0 {
                        assert(fields[j] == rest[j - 1]);
                    }
                }
            } else {
                assert forall|i: int| 0 <= i < fields.len() implies fields[i].0@ != key by {
                    if i > 0 {
                        assert(fields[i] == rest[i - 1]);
                    }
                }
            }
        }
    }
}

/// Sets field `key` to `value`: the first field with that key gets the
/// value, or the field is appended.
pub fn set_field(fields: &mut Vec<(String, JsonValue)>, key: &str, value: JsonValue)
    ensures
        field(final(fields)@, key@) == Some(value),
        forall|k: Seq<char>| k != key@ ==> #[trigger] field(final(fields)@, k) == field(old(fields)@, k),
{
    let ghost old_f = fields@;
    let mut i: usize = 0;
    while i < fields.len()
        invariant
            fields@ == old_f,
            old_f == old(fields)@,
            i <= old_f.len(),
            forall|j: int| 0 <= j < i ==> old_f[j].0@ != key@,
        decreases old_f.len() - i,
    {
        if str_eq(&fields[i].0, key) {
            assert(old_f[i as int].0@ == key@);
            fields.set(i, (copy_str(key), value));
            proof {
                let nf = fields@;
                assert(nf[i as int].0@ == key@);
                assert forall|j: int| 0 <= j < i implies nf[j].0@ != key@ by {
                    assert(nf[j] == old_f[j]);
                }
                lemma_field_at(nf, key@, i as int);
                assert forall|k: Seq<char>| k != key@ implies #[trigger] field(nf, k) == field(old_f, k) by {
                    lemma_field_props(old_f, k);
                    if field(old_f, k) is Some {
                        let m = choose|m: int| 0 <= m < old_f.len() && old_f[m].0@ == k
                            && field(old_f, k) == Some(old_f[m].1) && forall|j: int| 0 <= j < m ==> old_f[j].0@ != k;
                        assert(m != i);
                        assert(nf[m] == old_f[m]);
                        assert forall|j: int| 0 <= j < m implies nf[j].0@ != k by {
                            if j != i {
                                assert(nf[j] == old_f[j]);
                            }
                        }
                        lemma_field_at(nf, k, m);
                    } else {
                        assert forall|j: int| 0 <= j < nf.len() implies nf[j].0@ != k by {
                            if j != i {
                                assert(nf[j] == old_f[j]);
                            }
                        }
                        lemma_field_none(nf, k);
                    }
                }
            }
            return;
        }
        i = i + 1;
    }
    fields.push((copy_str(key), value));
    proof {
        let nf = fields@;
        assert forall|j: int| 0 <= j < old_f.len() implies nf[j] == old_f[j] by {}
        lemma_field_at(nf, key@, old_f.len() as int);
        assert forall|k: Seq<char>| k != key@ implies #[trigger] field(nf, k) == field(old_f, k) by {
            lemma_field_props(old_f, k);
            if field(old_f, k) is Some {
                let m = choose|m: int| 0 <= m < old_f.len() && old_f[m].0@ == k
                    && field(old_f, k) == Some(old_f[m].1) && forall|j: int| 0 <= j < m ==> old_f[j].0@ != k;
                lemma_field_at(nf, k, m);
            } else {
                lemma_field_none(nf, k);
            }
        }
    }
}

/// The text of a string field, if the field is a string.
pub fn string_field<'a>(fields: &'a Vec<(String, JsonValue)>, key: &str) -> (r: Option<&'a String>)
    ensures
        match field(fields@, key@) {
            Some(JsonValue::Str(s)) => r == Some(&s),
            _ => r is None,
        },
{
    match get_field(fields, key) {
        Some(JsonValue::Str(s)) => Some(s),
        _ => None,
    }
}

/// The strings among `items`, in order.
pub open spec fn strings_of(items: Seq<JsonValue>) -> Seq<Seq<char>>
    decreases items.len(),
{
    if items.len() == 0 {
        Seq::empty()
    } else {
        let rest = strings_of(items.drop_last());
        match items.last() {
            JsonValue::Str(s) => rest.push(s@),
            _ => rest,
        }
    }
}

/// The strings among the items of a JSON array (nothing for other values).
pub open spec fn json_strings(v: Option<JsonValue>) -> Seq<Seq<char>> {
    match v {
        Some(JsonValue::Array(items)) => strings_of(items@),
        _ => Seq::empty(),
    }
}

/// The keys of a JSON object's fields, in order.
pub open spec fn field_keys(fs: Seq<(String, JsonValue)>) -> Seq<Seq<char>> {
    fs.map_values(|f: (String, JsonValue)| f.0@)
}

/// The keys of a JSON object (nothing for other values).
pub open spec fn object_keys(v: Option<JsonValue>) -> Seq<Seq<char>> {
    match v {
        Some(JsonValue::Object(fs)) => field_keys(fs@),
        _ => Seq::empty(),
    }
}

/// The views of strings.
pub open spec fn views(v: Seq<String>) -> Seq<Seq<char>> {
    v.map_values(|s: String| s@)
}

/// Whether `v` is a JSON array of exactly the strings `items`.
pub open spec fn is_string_array(v: JsonValue, items: Seq<Seq<char>>) -> bool {
    &&& v matches JsonValue::Array(a)
    &&& a@.len() == items.len()
    &&& forall|i: int| 0 <= i < items.len() ==> (#[trigger] a@[i] matches JsonValue::Str(s) && s@ == items[i])
}

/// The strings among the items of a JSON array.
pub fn strings_in(v: Option<&JsonValue>) -> (r: Vec<String>)
    ensures
        views(r@) == json_strings(match v { Some(x) => Some(*x), None => None }),
{
    let mut out: Vec<String> = Vec::new();
    match v {
        Some(JsonValue::Array(items)) => {
            let mut i: usize = 0;
            while i < items.len()
                invariant
                    i <= items@.len(),
                    views(out@) == strings_of(items@.take(i as int)),
                decreases items@.len() - i,
            {
                let ghost t = items@.take(i + 1);
                let ghost before = out@;
                assert(t.drop_last() =~= items@.take(i as int));
                assert(t.last() == items@[i as int]);
                if let JsonValue::Str(s) = &items[i] {
                    out.push(copy_str(s));
                    assert(views(out@) =~= views(before).push(s@));
                }
                i = i + 1;
            }
            assert(items@.take(items@.len() as int) =~= items@);
        },
        _ => {
            assert(views(out@) =~= Seq::<Seq<char>>::empty());
        },
    }
    out
}

/// The keys of a JSON object.
pub fn keys_in(v: Option<&JsonValue>) -> (r: Vec<String>)
    ensures
        views(r@) == object_keys(match v { Some(x) => Some(*x), None => None }),
{
    let mut out: Vec<String> = Vec::new();
    match v {
        Some(JsonValue::Object(fs)) => {
            let mut i: usize = 0;
            while i < fs.len()
                invariant
                    i <= fs@.len(),
                    views(out@) == field_keys(fs@.take(i as int)),
                decreases fs@.len() - i,
            {
                let ghost before = out@;
                out.push(copy_str(&fs[i].0));
                assert(views(out@) =~= views(before).push(fs@[i as int].0@));
                assert(field_keys(fs@.take(i + 1)) =~= field_keys(fs@.take(i as int)).push(fs@[i as int].0@));
                i = i + 1;
            }
            assert(fs@.take(fs@.len() as int) =~= fs@);
        },
        _ => {
            assert(views(out@) =~= Seq::<Seq<char>>::empty());
        },
    }
    out
}

/// A JSON array of the given strings.
pub fn string_array(items: &Vec<String>) -> (v: JsonValue)
    ensures
        is_string_array(v, views(items@)),
{
    let mut a: Vec<JsonValue> = Vec::new();
    let mut i: usize = 0;
    while i < items.len()
        invariant
            i <= items@.len(),
            a@.len() == i,
            forall|k: int| 0 <= k < i ==> (#[trigger] a@[k] matches JsonValue::Str(s) && s@ == items@[k]@),
        decreases items@.len() - i,
    {
        a.push(JsonValue::Str(copy_str(&items[i])));
        i = i + 1;
    }
    JsonValue::Array(a)
}

/// The text of a string value, or `default` for anything else.
pub open spec fn str_or(v: Option<JsonValue>, default: Seq<char>) -> Seq<char> {
    match v {
        Some(JsonValue::Str(s)) => s@,
        _ => default,
    }
}

/// The text of string field `key`, or `default` when the field is missing
/// or not a string.
pub fn string_field_or(fields: &Vec<(String, JsonValue)>, key: &str, default: &str) -> (r: String)
    ensures
        r@ == str_or(field(fields@, key@), default@),
{
    match string_field(fields, key) {
        Some(s) => copy_str(s),
        None => copy_str(default),
    }
}

/// Whether `v` is the string `s`.
pub open spec fn is_str(v: JsonValue, s: Seq<char>) -> bool {
    v matches JsonValue::Str(x) && x@ == s
}

} // verus!

verus! {

/// The mathematical content of a JSON value.
pub enum JsonModel {
    Null,
    Bool(bool),
    Number(int),
    Str(Seq<char>),
    Array(Seq<JsonModel>),
    Object(Seq<(Seq<char>, JsonModel)>),
}

/// The content of `v`: its structure with strings as character sequences.
pub open spec fn json_model(v: JsonValue) -> JsonModel
    decreases v, 0int,
{
    match v {
        JsonValue::Null => JsonModel::Null,
        JsonValue::Bool(b) => JsonModel::Bool(b),
        JsonValue::Number(n) => JsonModel::Number(n as int),
        JsonValue::Str(s) => JsonModel::Str(s@),
        JsonValue::Array(a) => JsonModel::Array(items_model(a@)),
        JsonValue::Object(fs) => JsonModel::Object(fields_model(fs@)),
    }
}

/// The contents of `items`, in order.
pub open spec fn items_model(items: Seq<JsonValue>) -> Seq<JsonModel>
    decreases items, 0int,
{
    if items.len() == 0 {
        Seq::empty()
    } else {
        items_model(items.drop_last()).push(json_model(items.last()))
    }
}

/// The keys and contents of `fs`, in order.
pub open spec fn fields_model(fs: Seq<(String, JsonValue)>) -> Seq<(Seq<char>, JsonModel)>
    decreases fs, 0int,
{
    if fs.len() == 0 {
        Seq::empty()
    } else {
        fields_model(fs.drop_last()).push((fs.last().0@, json_model(fs.last().1)))
    }
}

/// Appending a field appends its key and content to the model.
pub(crate) proof fn lemma_fields_model_push(fs: Seq<(String, JsonValue)>, x: (String, JsonValue))
    ensures
        fields_model(fs.push(x)) == fields_model(fs).push((x.0@, json_model(x.1))),
{
    assert(fs.push(x).drop_last() =~= fs);
}

/// A copy of `v` with the same content.
pub fn copy_json(v: &JsonValue) -> (r: JsonValue)
    ensures
        json_model(r) == json_model(*v),
    decreases v,
{
    match v {
        JsonValue::Null => JsonValue::Null,
        JsonValue::Bool(b) => JsonValue::Bool(*b),
        JsonValue::Number(n) => JsonValue::Number(*n),
        JsonValue::Str(s) => JsonValue::Str(copy_str(s)),
        JsonValue::Array(a) => {
            let mut out: Vec<JsonValue> = Vec::new();
            let mut i: usize = 0;
            while i < a.len()
                invariant
                    *v == JsonValue::Array(*a),
                    i <= a@.len(),
                    items_model(out@) == items_model(a@.take(i as int)),
                decreases a@.len() - i,
            {
                proof {
                    assert(decreases_to!(*v => v->Array_0));
                    assert(decreases_to!(*a => a@));
                    assert(decreases_to!(a@ => a@[i as int]));
                }
                let c = copy_json(&a[i]);
                let ghost before = out@;
                out.push(c);
                proof {
                    assert(out@.drop_last() =~= before);
                    assert(a@.take(i as int + 1).drop_last() =~= a@.take(i as int));
                }
                i = i + 1;
            }
            proof { assert(a@.take(a@.len() as int) =~= a@); }
            JsonValue::Array(out)
        },
        JsonValue::Object(fs) => {
            let mut out: Vec<(String, JsonValue)> = Vec::new();
            let mut i: usize = 0;
            while i < fs.len()
                invariant
                    *v == JsonValue::Object(*fs),
                    i <= fs@.len(),
                    fields_model(out@) == fields_model(fs@.take(i as int)),
                decreases fs@.len() - i,
            {
                proof {
                    assert(decreases_to!(*v => v->Object_0));
                    assert(decreases_to!(*fs => fs@));
                    assert(decreases_to!(fs@ => fs@[i as int]));
                    assert(decreases_to!(fs@[i as int] => fs@[i as int].1));
                }
                let c = copy_json(&fs[i].1);
                let k = copy_str(&fs[i].0);
                let ghost before = out@;
                out.push((k, c));
                proof {
                    assert(out@.drop_last() =~= before);
                    assert(fs@.take(i as int + 1).drop_last() =~= fs@.take(i as int));
                }
                i = i + 1;
            }
            proof { assert(fs@.take(fs@.len() as int) =~= fs@); }
            JsonValue::Object(out)
        },
    }
}

} // verus!
