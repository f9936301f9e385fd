//! JSON values handled through `serde_json`, with a mathematical model of
//! each value that the contracts speak of.

use vstd::prelude::*;
use serde_json::Value;
use crate::text::decimal;

verus! {

#[verifier::external_type_specification]
#[verifier::external_body]
pub struct ExJsonValue(serde_json::Value);

/// The model of a JSON value.
///
/// A number is modelled by the text `serde_json` writes for it; an object by
/// its entries in the order its map walks them (by key, without duplicates).
pub enum JsonModel {
    Null,
    Bool(bool),
    Number(Seq<char>),
    Str(Seq<char>),
    Array(Seq<JsonModel>),
    Object(Seq<(Seq<char>, JsonModel)>),
}

/// Top-level kind of a JSON value.
#[derive(PartialEq, Eq, Structural)]
pub enum JsonKind {
    Null,
    Bool,
    Number,
    Str,
    Array,
    Object,
}

/// The kind of a modelled value.
pub open spec fn kind_of(m: JsonModel) -> JsonKind {
    match m {
        JsonModel::Null => JsonKind::Null,
        JsonModel::Bool(_) => JsonKind::Bool,
        JsonModel::Number(_) => JsonKind::Number,
        JsonModel::Str(_) => JsonKind::Str,
        JsonModel::Array(_) => JsonKind::Array,
        JsonModel::Object(_) => JsonKind::Object,
    }
}

/// String order of `String`'s `Ord`: lexicographic by character.
pub open spec fn key_lt(a: Seq<char>, b: Seq<char>) -> bool
    decreases a.len(),
{
    if b.len() == 0 {
        false
    } else if a.len() == 0 {
        true
    } else if (a[0] as u32) < (b[0] as u32) {
        true
    } else if a[0] == b[0] {
        key_lt(a.drop_first(), b.drop_first())
    } else {
        false
    }
}

/// Entries of an ordered map after setting `k` to `v`: an existing entry for
/// `k` is replaced in place, otherwise one is added in key order.
pub open spec fn entries_insert(
    es: Seq<(Seq<char>, JsonModel)>,
    k: Seq<char>,
    v: JsonModel,
) -> Seq<(Seq<char>, JsonModel)>
    decreases es.len(),
{
    if es.len() == 0 {
        seq![(k, v)]
    } else if es[0].0 == k {
        seq![(k, v)] + es.drop_first()
    } else if key_lt(k, es[0].0) {
        seq![(k, v)] + es
    } else {
        seq![es[0]] + entries_insert(es.drop_first(), k, v)
    }
}

/// `m` after `m[k] = v`: null becomes an object first.
pub open spec fn set_field(m: JsonModel, k: Seq<char>, v: JsonModel) -> JsonModel {
    match m {
        JsonModel::Object(es) => JsonModel::Object(entries_insert(es, k, v)),
        _ => JsonModel::Object(seq![(k, v)]),
    }
}

/// Object keys in strictly increasing order, as a `BTreeMap` walks them.
pub open spec fn keys_sorted(es: Seq<(Seq<char>, JsonModel)>) -> bool {
    forall|i: int, j: int| 0 <= i < j < es.len() ==> key_lt(#[trigger] es[i].0, #[trigger] es[j].0)
}

/// `m` is a value as `serde_json` holds it, nested at most `depth` arrays or
/// objects deep: its numbers are unsigned 64-bit integers in decimal and its
/// object keys strictly increase.
pub open spec fn canonical(m: JsonModel, depth: nat) -> bool
    decreases depth,
{
    match m {
        JsonModel::Number(t) => exists|n: u64| t == decimal(n as nat),
        JsonModel::Array(items) => depth > 0 && forall|i: int|
            0 <= i < items.len() ==> canonical(#[trigger] items[i], (depth - 1) as nat),
        JsonModel::Object(es) => depth > 0 && keys_sorted(es) && forall|i: int|
            0 <= i < es.len() ==> canonical(#[trigger] es[i].1, (depth - 1) as nat),
        _ => true,
    }
}

/// Nesting that `serde_json::from_str` reads back without reaching its
/// recursion limit (which stops at 128 levels).
pub open spec fn parse_depth() -> nat {
    100
}

/// `key_lt` is irreflexive and asymmetric.
pub proof fn lemma_key_lt_asym(a: Seq<char>, b: Seq<char>)
    ensures
        key_lt(a, b) ==> !key_lt(b, a),
    decreases a.len(),
{
    if a.len() > 0 && b.len() > 0 && a[0] == b[0] {
        lemma_key_lt_asym(a.drop_first(), b.drop_first());
    }
}

/// `key_lt` is transitive.
pub proof fn lemma_key_lt_trans(a: Seq<char>, b: Seq<char>, c: Seq<char>)
    requires
        key_lt(a, b),
        key_lt(b, c),
    ensures
        key_lt(a, c),
    decreases a.len(),
{
    if a.len() > 0 && b.len() > 0 && c.len() > 0 && a[0] == b[0] && b[0] == c[0] {
        lemma_key_lt_trans(a.drop_first(), b.drop_first(), c.drop_first());
    }
}

/// Two different keys are ordered one way or the other.
pub proof fn lemma_key_lt_total(a: Seq<char>, b: Seq<char>)
    requires
        a != b,
    ensures
        key_lt(a, b) || key_lt(b, a),
    decreases a.len(),
{
    if a.len() > 0 && b.len() > 0 && a[0] == b[0] {
        if a.drop_first() == b.drop_first() {
            assert(a =~= seq![a[0]] + a.drop_first());
            assert(b =~= seq![b[0]] + b.drop_first());
        }
        lemma_key_lt_total(a.drop_first(), b.drop_first());
    } else if a.len() > 0 && b.len() > 0 {
        vstd::utf8::char_u32_cast(a[0], a[0] as u32);
        vstd::utf8::char_u32_cast(b[0], b[0] as u32);
    } else if a.len() == 0 && b.len() == 0 {
        assert(a =~= b);
    }
}

/// Inserting into sorted entries keeps them sorted, and every value of the
/// result is the inserted one or a value that was there.
pub proof fn lemma_entries_insert(es: Seq<(Seq<char>, JsonModel)>, k: Seq<char>, v: JsonModel)
    requires
        keys_sorted(es),
    ensures
        keys_sorted(entries_insert(es, k, v)),
        forall|i: int| #![trigger entries_insert(es, k, v)[i]] 0 <= i < entries_insert(es, k, v).len() ==> {
            ||| entries_insert(es, k, v)[i].1 == v
            ||| exists|j: int| 0 <= j < es.len() && entries_insert(es, k, v)[i].1 == es[j].1
        },
        forall|i: int| #![trigger entries_insert(es, k, v)[i]] 0 <= i < entries_insert(es, k, v).len() ==> {
            ||| entries_insert(es, k, v)[i].0 == k
            ||| exists|j: int| 0 <= j < es.len() && entries_insert(es, k, v)[i].0 == es[j].0
        },
    decreases es.len(),
{
    let r = entries_insert(es, k, v);
    if es.len() == 0 {
    } else if es[0].0 == k {
        assert forall|i: int, j: int| 0 <= i < j < r.len() implies key_lt(#[trigger] r[i].0, #[trigger] r[j].0) by {
            if i == 0 {
                assert(r[j] == es[j]);
            } else {
                assert(r[i] == es[i] && r[j] == es[j]);
            }
        }
        assert forall|i: int| 0 <= i < r.len() implies (r[i].1 == v || exists|j: int| 0 <= j < es.len() && r[i].1 == es[j].1) by {
            if i > 0 {
                assert(r[i] == es[i]);
            }
        }
        assert forall|i: int| 0 <= i < r.len() implies (r[i].0 == k || exists|j: int| 0 <= j < es.len() && r[i].0 == es[j].0) by {
            if i > 0 {
                assert(r[i] == es[i]);
            }
        }
    } else if key_lt(k, es[0].0) {
        assert forall|i: int, j: int| 0 <= i < j < r.len() implies key_lt(#[trigger] r[i].0, #[trigger] r[j].0) by {
            if i == 0 {
                assert(r[j] == es[j - 1]);
                if j > 1 {
                    assert(key_lt(es[0].0, es[j - 1].0));
                    lemma_key_lt_trans(k, es[0].0, es[j - 1].0);
                }
            } else {
                assert(r[i] == es[i - 1] && r[j] == es[j - 1]);
            }
        }
        assert forall|i: int| 0 <= i < r.len() implies (r[i].1 == v || exists|j: int| 0 <= j < es.len() && r[i].1 == es[j].1) by {
            if i > 0 {
                assert(r[i] == es[i - 1]);
            }
        }
        assert forall|i: int| 0 <= i < r.len() implies (r[i].0 == k || exists|j: int| 0 <= j < es.len() && r[i].0 == es[j].0) by {
            if i > 0 {
                assert(r[i] == es[i - 1]);
            }
        }
    } else {
        let rest = es.drop_first();
        assert forall|i: int, j: int| 0 <= i < j < rest.len() implies key_lt(#[trigger] rest[i].0, #[trigger] rest[j].0) by {
            assert(rest[i] == es[i + 1] && rest[j] == es[j + 1]);
        }
        lemma_entries_insert(rest, k, v);
        let tail = entries_insert(rest, k, v);
        assert(r == seq![es[0]] + tail);
        lemma_key_lt_total(k, es[0].0);
        assert(key_lt(es[0].0, k));
        assert forall|i: int, j: int| 0 <= i < j < r.len() implies key_lt(#[trigger] r[i].0, #[trigger] r[j].0) by {
            if i == 0 {
                assert(r[j] == tail[j - 1]);
                let t = tail[j - 1];
                if t.0 == k {
                } else {
                    let jj = choose|jj: int| 0 <= jj < rest.len() && t.0 == rest[jj].0;
                    assert(rest[jj] == es[jj + 1]);
                }
            } else {
                assert(r[i] == tail[i - 1] && r[j] == tail[j - 1]);
            }
        }
        assert forall|i: int| 0 <= i < r.len() implies (r[i].1 == v || exists|j: int| 0 <= j < es.len() && r[i].1 == es[j].1) by {
            if i == 0 {
                assert(r[0].1 == es[0].1);
            } else {
                assert(r[i] == tail[i - 1]);
                if tail[i - 1].1 != v {
                    let jj = choose|jj: int| 0 <= jj < rest.len() && tail[i - 1].1 == rest[jj].1;
                    assert(rest[jj] == es[jj + 1]);
                }
            }
        }
        assert forall|i: int| 0 <= i < r.len() implies (r[i].0 == k || exists|j: int| 0 <= j < es.len() && r[i].0 == es[j].0) by {
            if i == 0 {
                assert(r[0].0 == es[0].0);
            } else {
                assert(r[i] == tail[i - 1]);
                if tail[i - 1].0 != k {
                    let jj = choose|jj: int| 0 <= jj < rest.len() && tail[i - 1].0 == rest[jj].0;
                    assert(rest[jj] == es[jj + 1]);
                }
            }
        }
    }
}

/// A value that fits in `depth` levels fits in any deeper bound.
pub proof fn lemma_canonical_deeper(m: JsonModel, depth: nat, more: nat)
    requires
        canonical(m, depth),
        depth <= more,
    ensures
        canonical(m, more),
    decreases depth,
{
    match m {
        JsonModel::Array(items) => {
            assert forall|i: int| 0 <= i < items.len() implies canonical(#[trigger] items[i], (more - 1) as nat) by {
                lemma_canonical_deeper(items[i], (depth - 1) as nat, (more - 1) as nat);
            }
        },
        JsonModel::Object(es) => {
            assert forall|i: int| 0 <= i < es.len() implies canonical(#[trigger] es[i].1, (more - 1) as nat) by {
                lemma_canonical_deeper(es[i].1, (depth - 1) as nat, (more - 1) as nat);
            }
        },
        _ => {},
    }
}

/// Setting a field of `null` or of a canonical object keeps it canonical.
pub proof fn lemma_set_field_canonical(m: JsonModel, k: Seq<char>, v: JsonModel, depth: nat)
    requires
        depth > 0,
        m is Null || (m is Object && canonical(m, depth)),
        canonical(v, (depth - 1) as nat),
    ensures
        canonical(set_field(m, k, v), depth),
{
    match m {
        JsonModel::Object(es) => {
            lemma_entries_insert(es, k, v);
            let r = entries_insert(es, k, v);
            assert forall|i: int| 0 <= i < r.len() implies canonical(#[trigger] r[i].1, (depth - 1) as nat) by {
                if r[i].1 != v {
                    let j = choose|j: int| 0 <= j < es.len() && r[i].1 == es[j].1;
                    assert(canonical(es[j].1, (depth - 1) as nat));
                }
            }
        },
        _ => {
            let r = seq![(k, v)];
            assert(r[0].1 == v);
        },
    }
}

/// What `serde_json::from_str::<Value>` parses `text` into, if it is JSON.
pub uninterp spec fn json_parse(text: Seq<char>) -> Option<JsonModel>;

/// The compact text `serde_json` writes for a value (`Value::to_string`).
pub uninterp spec fn json_text(v: JsonModel) -> Seq<char>;

/// A JSON value together with its model.
pub struct Json {
    value: Value,
    model: Ghost<JsonModel>,
}

impl View for Json {
    type V = JsonModel;

    closed spec fn view(&self) -> JsonModel {
        self.model@
    }
}

/// The model of the `i`-th element of an array.
pub open spec fn item_model(m: JsonModel, i: int) -> JsonModel {
    match m {
        JsonModel::Array(items) => items[i],
        _ => JsonModel::Null,
    }
}

/// The model of the value of the `i`-th entry of an object.
pub open spec fn entry_model(m: JsonModel, i: int) -> JsonModel {
    match m {
        JsonModel::Object(es) => es[i].1,
        _ => JsonModel::Null,
    }
}

/// The models of a sequence of JSON values.
pub open spec fn models(v: Seq<Json>) -> Seq<JsonModel> {
    v.map_values(|j: Json| j@)
}

/// The models of a sequence of object entries.
pub open spec fn entry_models(v: Seq<(String, Json)>) -> Seq<(Seq<char>, JsonModel)> {
    v.map_values(|e: (String, Json)| (e.0@, e.1@))
}

/// Parses `text` with `serde_json::from_str::<Value>`; `None` when it is not
/// JSON. Claims that the result is what `json_parse` names.
#[verifier::external_body]
pub(crate) fn parse_json(text: &str) -> (r: Option<Json>)
    ensures
        r is Some <==> json_parse(text@) is Some,
        r matches Some(j) ==> json_parse(text@) == Some(j@),
{
    match serde_json::from_str::<Value>(text) {
        Ok(value) => Some(Json { value, model: Ghost(json_parse(text@)->0) }),
        Err(_) => None,
    }
}

/// Writes `j` as compact JSON text (`Value::to_string`); claims the text is
/// what `json_text` names for its model, that it is not empty (every JSON
/// value is written with at least one character), that its UTF-8 bytes fit
/// in a `usize` (as those of every `String` do), and that
/// `serde_json::from_str` reads that text back as the same value when the
/// value is canonical and nested less deeply than the parser's recursion
/// limit.
#[verifier::external_body]
pub(crate) fn to_json_text(j: &Json) -> (s: String)
    ensures
        s@ == json_text(j@),
        s@.len() > 0,
        vstd::utf8::encode_utf8(s@).len() <= usize::MAX,
        canonical(j@, parse_depth()) ==> json_parse(s@) == Some(j@),
{
    j.value.to_string()
}

/// The JSON string holding `s` (`Value::String`).
#[verifier::external_body]
pub(crate) fn json_str(s: &str) -> (j: Json)
    ensures
        j@ == JsonModel::Str(s@),
{
    Json { value: Value::String(s.to_owned()), model: Ghost(JsonModel::Str(s@)) }
}

/// The JSON number `n` (`Value::from(u64)`), which serde_json writes in decimal.
#[verifier::external_body]
pub(crate) fn json_u64(n: u64) -> (j: Json)
    ensures
        j@ == JsonModel::Number(decimal(n as nat)),
{
    Json { value: Value::from(n), model: Ghost(JsonModel::Number(decimal(n as nat))) }
}

/// JSON `null` (`Value::Null`).
#[verifier::external_body]
pub(crate) fn json_null() -> (j: Json)
    ensures
        j@ == JsonModel::Null,
{
    Json { value: Value::Null, model: Ghost(JsonModel::Null) }
}

/// The JSON array of `items`, in order (`Value::Array`).
#[verifier::external_body]
pub(crate) fn json_array(items: Vec<Json>) -> (j: Json)
    ensures
        j@ == JsonModel::Array(models(items@)),
{
    let ghost m = JsonModel::Array(models(items@));
    Json { value: Value::Array(items.into_iter().map(|i| i.value).collect()), model: Ghost(m) }
}

/// `obj[key] = val` (`IndexMut<&str>` of `Value`): sets the entry in an
/// object, turning `null` into an object first. It panics on any other kind
/// of value, which `requires` leaves out.
#[verifier::external_body]
pub(crate) fn json_set(obj: &mut Json, key: &str, val: Json)
    requires
        old(obj)@ is Null || old(obj)@ is Object,
    ensures
        final(obj)@ == set_field(old(obj)@, key@, val@),
{
    let ghost m = set_field(obj.model@, key@, val.model@);
    obj.value[key] = val.value;
    obj.model = Ghost(m);
}

/// Which kind of value `j` is (one arm per variant of `Value`).
#[verifier::external_body]
pub(crate) fn json_kind(j: &Json) -> (k: JsonKind)
    ensures
        k == kind_of(j@),
{
    match &j.value {
        Value::Null => JsonKind::Null,
        Value::Bool(_) => JsonKind::Bool,
        Value::Number(_) => JsonKind::Number,
        Value::String(_) => JsonKind::Str,
        Value::Array(_) => JsonKind::Array,
        Value::Object(_) => JsonKind::Object,
    }
}

/// The characters of a JSON string.
#[verifier::external_body]
pub(crate) fn json_as_string(j: &Json) -> (s: String)
    requires
        j@ is Str,
    ensures
        j@ == JsonModel::Str(s@),
{
    match &j.value {
        Value::String(s) => s.clone(),
        _ => String::new(),
    }
}

/// The elements of a JSON array, in order (clones of them).
#[verifier::external_body]
pub(crate) fn json_items(j: &Json) -> (items: Vec<Json>)
    requires
        j@ is Array,
    ensures
        j@ == JsonModel::Array(models(items@)),
{
    let mut items = Vec::new();
    if let Value::Array(a) = &j.value {
        for (i, v) in a.iter().enumerate() {
            items.push(Json { value: v.clone(), model: Ghost(item_model(j@, i as int)) });
        }
    }
    items
}

/// The entries of a JSON object, in the order its map walks them (clones).
#[verifier::external_body]
pub(crate) fn json_entries(j: &Json) -> (entries: Vec<(String, Json)>)
    requires
        j@ is Object,
    ensures
        j@ == JsonModel::Object(entry_models(entries@)),
{
    let mut entries = Vec::new();
    if let Value::Object(m) = &j.value {
        for (i, (k, v)) in m.iter().enumerate() {
            entries.push((k.clone(), Json { value: v.clone(), model: Ghost(entry_model(j@, i as int)) }));
        }
    }
    entries
}

} // verus!
