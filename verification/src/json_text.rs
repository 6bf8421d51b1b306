//! JSON and TOML text read into the library's JSON model: serde_json and
//! toml parse, and the tree they build is copied into a `JsonValue`.
use vstd::prelude::*;
use crate::json::{
    Json, JsonNumber, JsonValue, entries_view, has_key, items_view, key_pos, keys_distinct, lemma_array_view,
    lemma_first_key_unique, lemma_object_view, member, obj_get, str_member,
};
use crate::text::trimmed;
use serde_json::Value;

verus! {

/// serde_json's value type, carried through without looking inside.
#[verifier::external_type_specification]
#[verifier::external_body]
pub struct ExSerdeJsonValue(serde_json::Value);

/// How deep a parsed tree is copied; serde_json refuses documents nested
/// more than 128 levels, so its trees are copied whole.
pub const COPY_DEPTH: usize = 512;

/// One level of a serde_json value: its scalar, or its children.
pub enum SerdeNode<'a> {
    Null,
    Bool(bool),
    Number(JsonNumber),
    Str(String),
    Array(Vec<&'a serde_json::Value>),
    Object(Vec<(String, &'a serde_json::Value)>),
}

/// Tells apart the variants of a `serde_json::Value` (and those of its
/// `Number`: an unsigned integer, a signed one, or a double held by its
/// bits), handing out the children by reference.
#[verifier::external_body]
fn serde_node<'a>(v: &'a Value) -> SerdeNode<'a> {
    match v {
        Value::Null => SerdeNode::Null,
        Value::Bool(b) => SerdeNode::Bool(*b),
        Value::Number(n) => SerdeNode::Number(match (n.as_u64(), n.as_i64()) {
            (Some(u), _) => JsonNumber::PosInt(u),
            (_, Some(i)) => JsonNumber::NegInt(i),
            _ => JsonNumber::Float(n.as_f64().unwrap_or_default().to_bits()),
        }),
        Value::String(s) => SerdeNode::Str(s.clone()),
        Value::Array(a) => SerdeNode::Array(a.iter().collect()),
        Value::Object(m) => SerdeNode::Object(m.iter().map(|(k, x)| (k.clone(), x)).collect()),
    }
}

/// `j` nests arrays and objects at most `d` levels deep: a container needs a
/// level, and its items and values must nest within one level less.
pub open spec fn nested_within(j: Json, d: nat) -> bool
    decreases j,
{
    match j {
        Json::Array(a) => d > 0 && forall|i: int| 0 <= i < a.len() ==> nested_within(#[trigger] a[i], (d - 1) as nat),
        Json::Object(m) => d > 0 && forall|i: int|
            0 <= i < m.len() ==> nested_within(#[trigger] m[i].1, (d - 1) as nat),
        _ => true,
    }
}

/// A copy of the serde_json value `v` as a `JsonValue`, down to `depth`
/// levels (below that, `null`): the copy nests at most `depth` levels, and
/// at depth 0 it is `null`. What it holds otherwise is serde_json's value,
/// which Verus does not see into.
fn json_of(v: &serde_json::Value, depth: usize) -> (r: JsonValue)
    ensures
        nested_within(r@, depth as nat),
        depth == 0 ==> r@ == Json::Null,
    decreases depth,
{
    if depth == 0 {
        return JsonValue::Null;
    }
    match serde_node(v) {
        SerdeNode::Null => JsonValue::Null,
        SerdeNode::Bool(b) => JsonValue::Bool(b),
        SerdeNode::Number(n) => JsonValue::Number(n),
        SerdeNode::Str(s) => JsonValue::String(s),
        SerdeNode::Array(items) => {
            let mut out: Vec<JsonValue> = Vec::new();
            let mut i: usize = 0;
            while i < items.len()
                invariant
                    i <= items.len(),
                    depth > 0,
                    out@.len() == i,
                    forall|j: int| 0 <= j < i ==> nested_within(#[trigger] out@[j]@, (depth - 1) as nat),
                decreases items.len() - i,
            {
                out.push(json_of(items[i], depth - 1));
                i = i + 1;
            }
            proof {
                lemma_array_view(out);
                let iv = items_view(out@);
                assert forall|j: int| 0 <= j < iv.len() implies nested_within(#[trigger] iv[j], (depth - 1) as nat) by {
                    assert(iv[j] == out@[j]@);
                }
            }
            JsonValue::Array(out)
        },
        SerdeNode::Object(entries) => {
            let mut out: Vec<(String, JsonValue)> = Vec::new();
            let mut i: usize = 0;
            while i < entries.len()
                invariant
                    i <= entries.len(),
                    depth > 0,
                    out@.len() == i,
                    forall|j: int| 0 <= j < i ==> nested_within(#[trigger] out@[j].1@, (depth - 1) as nat),
                decreases entries.len() - i,
            {
                let key = entries[i].0.clone();
                out.push((key, json_of(entries[i].1, depth - 1)));
                i = i + 1;
            }
            proof {
                lemma_object_view(out);
                let ev = entries_view(out@);
                assert forall|j: int| 0 <= j < ev.len() implies nested_within(#[trigger] ev[j].1, (depth - 1) as nat) by {
                    assert(ev[j].1 == out@[j].1@);
                }
            }
            JsonValue::Object(out)
        },
    }
}

/// Why serde_json refused a text: its message, and the one-based line and
/// column where it stopped.
pub struct JsonSyntaxError {
    pub message: String,
    pub line: usize,
    pub column: usize,
}

/// What serde_json makes of the text `text`: the document, or the message,
/// line and column of its error.
pub uninterp spec fn json_parse(text: Seq<char>) -> Result<Json, (Seq<char>, usize, usize)>;

/// `serde_json::from_str` into a `serde_json::Value`, copied into a
/// `JsonValue` down to `COPY_DEPTH` levels (by the verified `json_of`); on
/// failure the error's `to_string()`, `line()` and `column()`. The contract
/// names the outcome (`json_parse`) and states the depth of the copy; it says
/// no more of the outcome: it is serde_json's grammar, and depends on the text
/// alone. serde_json refuses a document nested more than 127 levels, so the
/// copy is never cut.
#[verifier::external_body]
pub(crate) fn parse_json_text(text: &str) -> (r: Result<JsonValue, JsonSyntaxError>)
    ensures
        match r {
            Ok(v) => json_parse(text@) == Ok::<Json, (Seq<char>, usize, usize)>(v@) && nested_within(
                v@,
                COPY_DEPTH as nat,
            ),
            Err(e) => json_parse(text@) == Err::<Json, (Seq<char>, usize, usize)>((e.message@, e.line, e.column)),
        },
{
    match serde_json::from_str::<serde_json::Value>(text) {
        Ok(v) => Ok(json_of(&v, COPY_DEPTH)),
        Err(e) => Err(JsonSyntaxError { message: e.to_string(), line: e.line(), column: e.column() }),
    }
}

/// What the toml crate makes of the document `text`, read as JSON data: the
/// document, or the message of its error.
pub uninterp spec fn toml_parse(text: Seq<char>) -> Result<Json, Seq<char>>;

/// `toml::from_str` into a `serde_json::Value` (a table becomes an object;
/// a date-time becomes the object toml serialises it as), copied into a
/// `JsonValue` down to `COPY_DEPTH` levels (by the verified `json_of`); on
/// failure the error's `to_string()`. The contract names the outcome
/// (`toml_parse`) and states the depth of the copy; it says no more of the
/// outcome. toml limits nesting to 80 levels, so the copy is never cut.
#[verifier::external_body]
pub(crate) fn parse_toml_text(text: &str) -> (r: Result<JsonValue, String>)
    ensures
        match r {
            Ok(v) => toml_parse(text@) == Ok::<Json, Seq<char>>(v@) && nested_within(v@, COPY_DEPTH as nat),
            Err(m) => toml_parse(text@) == Err::<Json, Seq<char>>(m@),
        },
{
    match toml::from_str::<serde_json::Value>(text) {
        Ok(v) => Ok(json_of(&v, COPY_DEPTH)),
        Err(e) => Err(e.to_string()),
    }
}

/// No number of `j` has a fraction or an exponent.
pub open spec fn float_free(j: Json) -> bool
    decreases j,
{
    match j {
        Json::Number(n) => !(n is Float),
        Json::Array(a) => items_float_free(a),
        Json::Object(m) => entries_float_free(m),
        _ => true,
    }
}

/// No number within the items `a` has a fraction or an exponent.
pub open spec fn items_float_free(a: Seq<Json>) -> bool
    decreases a,
{
    a.len() == 0 || (float_free(a[0]) && items_float_free(a.drop_first()))
}

/// No number within the values of the entries `m` has a fraction or an exponent.
pub open spec fn entries_float_free(m: Seq<(Seq<char>, Json)>) -> bool
    decreases m,
{
    m.len() == 0 || (float_free(m[0].1) && entries_float_free(m.drop_first()))
}

/// `j` is data that serde_json reads back as it was written: its numbers are
/// integers, a negative one held below zero, and no object of it holds a key
/// twice.
pub open spec fn plain_data(j: Json) -> bool
    decreases j,
{
    match j {
        Json::Number(n) => match n {
            JsonNumber::PosInt(_) => true,
            JsonNumber::NegInt(i) => i < 0,
            JsonNumber::Float(_) => false,
        },
        Json::Array(a) => items_plain(a),
        Json::Object(m) => keys_distinct(m) && entries_plain(m),
        _ => true,
    }
}

/// Each of the items `a` is plain data.
pub open spec fn items_plain(a: Seq<Json>) -> bool
    decreases a,
{
    a.len() == 0 || (plain_data(a[0]) && items_plain(a.drop_first()))
}

/// Each value of the entries `m` is plain data.
pub open spec fn entries_plain(m: Seq<(Seq<char>, Json)>) -> bool
    decreases m,
{
    m.len() == 0 || (plain_data(m[0].1) && entries_plain(m.drop_first()))
}

/// A list holds only float-free values exactly when each of its items is.
pub proof fn lemma_items_float_free(a: Seq<Json>)
    ensures
        items_float_free(a) <==> forall|i: int| 0 <= i < a.len() ==> #[trigger] float_free(a[i]),
    decreases a.len(),
{
    if a.len() > 0 {
        let d = a.drop_first();
        lemma_items_float_free(d);
        assert forall|i: int| 0 <= i < d.len() implies d[i] == a[i + 1] by {}
        let all = forall|i: int| 0 <= i < a.len() ==> #[trigger] float_free(a[i]);
        assert(items_float_free(a) == (float_free(a[0]) && items_float_free(d)));
        if all {
            assert forall|i: int| 0 <= i < d.len() implies #[trigger] float_free(d[i]) by {
                assert(float_free(a[i + 1]));
            }
            assert(items_float_free(d));
            assert(float_free(a[0]));
            assert(items_float_free(a));
        }
        if items_float_free(a) {
            assert forall|i: int| 0 <= i < a.len() implies #[trigger] float_free(a[i]) by {
                if i > 0 {
                    assert(float_free(d[i - 1]));
                }
            }
        }
    }
}

/// Entries hold only float-free values exactly when each of their values is.
pub proof fn lemma_entries_float_free(m: Seq<(Seq<char>, Json)>)
    ensures
        entries_float_free(m) <==> forall|i: int| 0 <= i < m.len() ==> #[trigger] float_free(m[i].1),
    decreases m.len(),
{
    if m.len() > 0 {
        let d = m.drop_first();
        lemma_entries_float_free(d);
        assert forall|i: int| 0 <= i < d.len() implies d[i] == m[i + 1] by {}
        let all = forall|i: int| 0 <= i < m.len() ==> #[trigger] float_free(m[i].1);
        assert(entries_float_free(m) == (float_free(m[0].1) && entries_float_free(d)));
        if all {
            assert forall|i: int| 0 <= i < d.len() implies #[trigger] float_free(d[i].1) by {
                assert(float_free(m[i + 1].1));
            }
            assert(entries_float_free(d));
            assert(float_free(m[0].1));
            assert(entries_float_free(m));
        }
        if entries_float_free(m) {
            assert forall|i: int| 0 <= i < m.len() implies #[trigger] float_free(m[i].1) by {
                if i > 0 {
                    assert(float_free(d[i - 1].1));
                }
            }
        }
    }
}

/// A list holds only plain data exactly when each of its items is.
pub proof fn lemma_items_plain(a: Seq<Json>)
    ensures
        items_plain(a) <==> forall|i: int| 0 <= i < a.len() ==> #[trigger] plain_data(a[i]),
    decreases a.len(),
{
    if a.len() > 0 {
        let d = a.drop_first();
        lemma_items_plain(d);
        assert forall|i: int| 0 <= i < d.len() implies d[i] == a[i + 1] by {}
        let all = forall|i: int| 0 <= i < a.len() ==> #[trigger] plain_data(a[i]);
        assert(items_plain(a) == (plain_data(a[0]) && items_plain(d)));
        if all {
            assert forall|i: int| 0 <= i < d.len() implies #[trigger] plain_data(d[i]) by {
                assert(plain_data(a[i + 1]));
            }
            assert(items_plain(d));
            assert(plain_data(a[0]));
            assert(items_plain(a));
        }
        if items_plain(a) {
            assert forall|i: int| 0 <= i < a.len() implies #[trigger] plain_data(a[i]) by {
                if i > 0 {
                    assert(plain_data(d[i - 1]));
                }
            }
        }
    }
}

/// Entries hold only plain data exactly when each of their values is.
pub proof fn lemma_entries_plain(m: Seq<(Seq<char>, Json)>)
    ensures
        entries_plain(m) <==> forall|i: int| 0 <= i < m.len() ==> #[trigger] plain_data(m[i].1),
    decreases m.len(),
{
    if m.len() > 0 {
        let d = m.drop_first();
        lemma_entries_plain(d);
        assert forall|i: int| 0 <= i < d.len() implies d[i] == m[i + 1] by {}
        let all = forall|i: int| 0 <= i < m.len() ==> #[trigger] plain_data(m[i].1);
        assert(entries_plain(m) == (plain_data(m[0].1) && entries_plain(d)));
        if all {
            assert forall|i: int| 0 <= i < d.len() implies #[trigger] plain_data(d[i].1) by {
                assert(plain_data(m[i + 1].1));
            }
            assert(entries_plain(d));
            assert(plain_data(m[0].1));
            assert(entries_plain(m));
        }
        if entries_plain(m) {
            assert forall|i: int| 0 <= i < m.len() implies #[trigger] plain_data(m[i].1) by {
                if i > 0 {
                    assert(plain_data(d[i - 1].1));
                }
            }
        }
    }
}

/// `a` is `b` up to the order of the entries of each object: arrays match
/// item by item, and objects have the same number of entries, each key of one
/// is a key of the other, and the value under each key of `a` matches the
/// value that a lookup of that key in `b` finds.
pub open spec fn json_equiv(a: Json, b: Json) -> bool
    decreases a,
{
    match a {
        Json::Array(x) => match b {
            Json::Array(y) => items_equiv(x, y),
            _ => false,
        },
        Json::Object(m) => match b {
            Json::Object(n) => {
                &&& m.len() == n.len()
                &&& entries_equiv(m, n)
                &&& forall|j: int| 0 <= j < n.len() ==> has_key(m, #[trigger] n[j].0)
            },
            _ => false,
        },
        _ => a == b,
    }
}

/// The lists `x` and `y` match item by item, up to the order of entries.
pub open spec fn items_equiv(x: Seq<Json>, y: Seq<Json>) -> bool
    decreases x,
{
    x.len() == y.len() && (x.len() == 0 || (json_equiv(x[0], y[0]) && items_equiv(x.drop_first(), y.drop_first())))
}

/// Each entry of `m` has its key in `n`, and its value matches the value a
/// lookup of that key in `n` finds.
pub open spec fn entries_equiv(m: Seq<(Seq<char>, Json)>, n: Seq<(Seq<char>, Json)>) -> bool
    decreases m,
{
    m.len() == 0 || (has_key(n, m[0].0) && json_equiv(m[0].1, obj_get(n, m[0].0)->Some_0) && entries_equiv(
        m.drop_first(),
        n,
    ))
}

/// Each entry of `m` has its key in `n`, with a matching value, when the
/// entries match.
pub proof fn lemma_entries_equiv_at(m: Seq<(Seq<char>, Json)>, n: Seq<(Seq<char>, Json)>, i: int)
    requires
        entries_equiv(m, n),
        0 <= i < m.len(),
    ensures
        has_key(n, m[i].0),
        json_equiv(m[i].1, obj_get(n, m[i].0)->Some_0),
    decreases i,
{
    if i > 0 {
        lemma_entries_equiv_at(m.drop_first(), n, i - 1);
        assert(m.drop_first()[i - 1] == m[i]);
    }
}

/// Items match one by one when the lists match.
pub proof fn lemma_items_equiv_at(x: Seq<Json>, y: Seq<Json>, i: int)
    requires
        items_equiv(x, y),
        0 <= i < x.len(),
    ensures
        x.len() == y.len(),
        json_equiv(x[i], y[i]),
    decreases i,
{
    if i > 0 {
        lemma_items_equiv_at(x.drop_first(), y.drop_first(), i - 1);
        assert(x.drop_first()[i - 1] == x[i]);
        assert(y.drop_first()[i - 1] == y[i]);
    }
}

/// A lookup in an object that matches another up to order finds the same
/// keys, with matching values.
pub proof fn lemma_equiv_get(m: Seq<(Seq<char>, Json)>, n: Seq<(Seq<char>, Json)>, k: Seq<char>)
    requires
        json_equiv(Json::Object(m), Json::Object(n)),
    ensures
        has_key(m, k) == has_key(n, k),
        has_key(m, k) ==> json_equiv(obj_get(m, k)->Some_0, obj_get(n, k)->Some_0),
{
    if has_key(m, k) {
        let p = key_pos(m, k);
        lemma_first_key_unique(m, k, p);
        lemma_entries_equiv_at(m, n, p);
    }
    if has_key(n, k) {
        let q = key_pos(n, k);
        lemma_first_key_unique(n, k, q);
        assert(has_key(m, n[q].0));
    }
}

/// A value that matches a string, or a scalar, up to order is that value.
pub proof fn lemma_equiv_scalar(a: Json, b: Json)
    requires
        json_equiv(a, b),
        !(b is Array) && !(b is Object),
    ensures
        a == b,
{
}

/// Members of two values that match up to order, where the second is plain
/// data, match too; their texts are the same.
pub proof fn lemma_equiv_member(a: Json, b: Json, k: Seq<char>)
    requires
        json_equiv(a, b),
        plain_data(b),
    ensures
        member(a, k) is Some == member(b, k) is Some,
        member(a, k) is Some ==> json_equiv(member(a, k)->Some_0, member(b, k)->Some_0),
        member(b, k) is Some ==> plain_data(member(b, k)->Some_0),
        str_member(a, k) == str_member(b, k),
{
    match b {
        Json::Object(n) => {
            let m = a->Object_0;
            lemma_equiv_get(m, n, k);
            if has_key(n, k) {
                let q = key_pos(n, k);
                lemma_first_key_unique(n, k, q);
                lemma_entries_plain(n);
                assert(plain_data(n[q].1));
                let x = obj_get(m, k)->Some_0;
                let y = n[q].1;
                if !(y is Array) && !(y is Object) {
                    lemma_equiv_scalar(x, y);
                }
            }
        },
        Json::Array(_) => {},
        _ => {
            lemma_equiv_scalar(a, b);
        },
    }
}

/// A `serde_json::Value` of `null`.
#[verifier::external_body]
fn serde_null() -> Value {
    Value::Null
}

/// A `serde_json::Value` of a boolean.
#[verifier::external_body]
fn serde_bool(b: bool) -> Value {
    Value::Bool(b)
}

/// A `serde_json::Value` of an unsigned integer (`Value::from` a `u64`).
#[verifier::external_body]
fn serde_unsigned(u: u64) -> Value {
    Value::from(u)
}

/// A `serde_json::Value` of a signed integer (`Value::from` an `i64`).
#[verifier::external_body]
fn serde_signed(i: i64) -> Value {
    Value::from(i)
}

/// A `serde_json::Value` of a string.
#[verifier::external_body]
fn serde_string(s: String) -> Value {
    Value::String(s)
}

/// A `serde_json::Value` of an array of values.
#[verifier::external_body]
fn serde_array(items: Vec<Value>) -> Value {
    Value::Array(items)
}

/// A `serde_json::Value` of an object, its map collected from the entries
/// (where a key occurs twice, the later entry stays).
#[verifier::external_body]
fn serde_object(entries: Vec<(String, Value)>) -> Value {
    Value::Object(entries.into_iter().collect())
}

/// The serde_json value that `v` stands for, built one level at a time.
#[verifier::loop_isolation(false)]
fn serde_value_of(v: &JsonValue) -> Value
    requires
        float_free(v@),
    decreases v,
{
    match v {
        JsonValue::Null => serde_null(),
        JsonValue::Bool(b) => serde_bool(*b),
        JsonValue::Number(n) => match n {
            JsonNumber::PosInt(u) => serde_unsigned(*u),
            JsonNumber::NegInt(i) => serde_signed(*i),
            JsonNumber::Float(_) => {
                assert(false);
                serde_null()
            },
        },
        JsonValue::String(s) => serde_string(s.clone()),
        JsonValue::Array(items) => {
            proof {
                lemma_array_view(*items);
                lemma_items_float_free(items_view(items@));
                assert forall|j: int| 0 <= j < items@.len() implies float_free(#[trigger] items@[j]@) by {
                    assert(items_view(items@)[j] == items@[j]@);
                    assert(float_free(items_view(items@)[j]));
                }
            }
            let mut out: Vec<Value> = Vec::new();
            let mut i: usize = 0;
            while i < items.len()
                invariant
                    i <= items.len(),
                    forall|j: int| 0 <= j < items@.len() ==> float_free(#[trigger] items@[j]@),
                decreases items.len() - i,
            {
                proof {
                    assert(decreases_to!(*v => items@[i as int]));
                }
                out.push(serde_value_of(&items[i]));
                i = i + 1;
            }
            serde_array(out)
        },
        JsonValue::Object(entries) => {
            proof {
                lemma_object_view(*entries);
                lemma_entries_float_free(entries_view(entries@));
                assert forall|j: int| 0 <= j < entries@.len() implies float_free(#[trigger] entries@[j].1@) by {
                    assert(entries_view(entries@)[j].1 == entries@[j].1@);
                    assert(float_free(entries_view(entries@)[j].1));
                }
            }
            let mut out: Vec<(String, Value)> = Vec::new();
            let mut i: usize = 0;
            while i < entries.len()
                invariant
                    i <= entries.len(),
                    forall|j: int| 0 <= j < entries@.len() ==> float_free(#[trigger] entries@[j].1@),
                decreases entries.len() - i,
            {
                proof {
                    assert(decreases_to!(*v => entries@[i as int].1));
                }
                let key = entries[i].0.clone();
                out.push((key, serde_value_of(&entries[i].1)));
                i = i + 1;
            }
            serde_object(out)
        },
    }
}

/// The text that serde_json writes for the document `v`.
pub uninterp spec fn json_text(v: Json) -> Seq<char>;

/// `serde_json::to_string` of the serde_json value that `v` stands for (built
/// by the verified `serde_value_of`). serde_json writes compact JSON: no
/// white space between tokens, and every control character in a string
/// escaped, so the text is one line that begins and ends with a token; it
/// cannot fail on a `Value`. Its objects are `BTreeMap`s, written in key
/// order, and serde_json reads such a text back as the value it was, up to
/// that order, when the value is plain data nested within its recursion limit
/// of 127 levels. The text itself is named (`json_text`), not spelled out.
#[verifier::external_body]
pub(crate) fn json_to_text(v: &JsonValue) -> (r: String)
    requires
        float_free(v@),
    ensures
        r@ == json_text(v@),
        r@.len() > 0,
        !r@.contains('\n'),
        trimmed(r@) == r@,
        plain_data(v@) && nested_within(v@, 100) ==> json_parse(r@) is Ok && json_equiv(json_parse(r@)->Ok_0, v@),
{
    serde_json::to_string(&serde_value_of(v)).unwrap_or_default()
}

} // verus!
