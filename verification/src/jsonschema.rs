//! Normalization of JSON Schemas handed to model providers: explicit `type`
//! keywords on property schemas, and expansion of local `$ref` entries.
use vstd::prelude::*;
use crate::json::{
    Json, JsonNumber, JsonValue, contains_key, entries_view, get_value, has_key, insert_value,
    items_view, lemma_array_view, lemma_insert_get, lemma_object_view, lemma_same_keys, obj_get,
    obj_insert, obj_remove, remove_value, duplicate_entries, is_first_key, key_pos, lemma_first_key_unique,
};
use crate::text::{chars_range_to_string, split_chars, split_from, split_on, str_chars, str_equal, string_of, strs_view};

verus! {

/// The types that a JSON Schema `type` keyword names.
#[derive(Debug, Clone, Copy, PartialEq, Eq, Structural)]
pub enum JsonType {
    Null,
    Boolean,
    Integer,
    Number,
    String,
    Object,
    Array,
}

/// The name of `t` in a `type` keyword.
pub open spec fn type_keyword(t: JsonType) -> Seq<char> {
    match t {
        JsonType::Null => "null"@,
        JsonType::Boolean => "boolean"@,
        JsonType::Integer => "integer"@,
        JsonType::Number => "number"@,
        JsonType::String => "string"@,
        JsonType::Object => "object"@,
        JsonType::Array => "array"@,
    }
}

/// The name of `t` in a `type` keyword.
pub fn type_keyword_string(t: JsonType) -> (r: String)
    ensures
        r@ == type_keyword(t),
{
    match t {
        JsonType::Null => string_of("null"),
        JsonType::Boolean => string_of("boolean"),
        JsonType::Integer => string_of("integer"),
        JsonType::Number => string_of("number"),
        JsonType::String => string_of("string"),
        JsonType::Object => string_of("object"),
        JsonType::Array => string_of("array"),
    }
}

/// The type of a JSON value; a number is an integer unless it holds a fraction
/// or an exponent.
pub open spec fn kind_of(j: Json) -> JsonType {
    match j {
        Json::Null => JsonType::Null,
        Json::Bool(_) => JsonType::Boolean,
        Json::Number(JsonNumber::Float(_)) => JsonType::Number,
        Json::Number(_) => JsonType::Integer,
        Json::Str(_) => JsonType::String,
        Json::Array(_) => JsonType::Array,
        Json::Object(_) => JsonType::Object,
    }
}

/// The type of a JSON value.
pub fn kind_of_value(v: &JsonValue) -> (r: JsonType)
    ensures
        r == kind_of(v@),
{
    match v {
        JsonValue::Null => JsonType::Null,
        JsonValue::Bool(_) => JsonType::Boolean,
        JsonValue::Number(JsonNumber::Float(_)) => JsonType::Number,
        JsonValue::Number(_) => JsonType::Integer,
        JsonValue::String(_) => JsonType::String,
        JsonValue::Array(_) => JsonType::Array,
        JsonValue::Object(_) => JsonType::Object,
    }
}

/// The type that a list of allowed values (an `enum`, or a `const` alone)
/// shows: the one type they share; `number` when integers and other numbers
/// mix; `string` otherwise, and for no values at all.
pub open spec fn type_of_values(vals: Seq<Json>) -> JsonType {
    if vals.len() == 0 {
        JsonType::String
    } else if forall|i: int| 0 <= i < vals.len() ==> kind_of(#[trigger] vals[i]) == kind_of(vals[0]) {
        kind_of(vals[0])
    } else if forall|i: int|
        0 <= i < vals.len() ==> kind_of(#[trigger] vals[i]) == JsonType::Integer || kind_of(vals[i])
            == JsonType::Number {
        JsonType::Number
    } else {
        JsonType::String
    }
}

/// The keywords by which a schema declares its shape without `type`.
pub open spec fn has_combinator(m: Seq<(Seq<char>, Json)>) -> bool {
    ||| has_key(m, "anyOf"@)
    ||| has_key(m, "oneOf"@)
    ||| has_key(m, "allOf"@)
    ||| has_key(m, "not"@)
    ||| has_key(m, "if"@)
    ||| has_key(m, "then"@)
    ||| has_key(m, "else"@)
    ||| has_key(m, "$ref"@)
}

pub open spec fn has_object_keyword(m: Seq<(Seq<char>, Json)>) -> bool {
    ||| has_key(m, "properties"@)
    ||| has_key(m, "additionalProperties"@)
    ||| has_key(m, "patternProperties"@)
    ||| has_key(m, "propertyNames"@)
    ||| has_key(m, "required"@)
    ||| has_key(m, "minProperties"@)
    ||| has_key(m, "maxProperties"@)
}

pub open spec fn has_array_keyword(m: Seq<(Seq<char>, Json)>) -> bool {
    ||| has_key(m, "items"@)
    ||| has_key(m, "prefixItems"@)
    ||| has_key(m, "minItems"@)
    ||| has_key(m, "maxItems"@)
    ||| has_key(m, "uniqueItems"@)
    ||| has_key(m, "contains"@)
}

pub open spec fn has_string_keyword(m: Seq<(Seq<char>, Json)>) -> bool {
    ||| has_key(m, "minLength"@)
    ||| has_key(m, "maxLength"@)
    ||| has_key(m, "pattern"@)
    ||| has_key(m, "format"@)
}

pub open spec fn has_numeric_keyword(m: Seq<(Seq<char>, Json)>) -> bool {
    ||| has_key(m, "minimum"@)
    ||| has_key(m, "maximum"@)
    ||| has_key(m, "multipleOf"@)
    ||| has_key(m, "exclusiveMinimum"@)
    ||| has_key(m, "exclusiveMaximum"@)
}

/// The type that the structural keywords of a schema show.
pub open spec fn type_of_structure(m: Seq<(Seq<char>, Json)>) -> JsonType {
    if has_object_keyword(m) {
        JsonType::Object
    } else if has_array_keyword(m) {
        JsonType::Array
    } else if has_string_keyword(m) {
        JsonType::String
    } else if has_numeric_keyword(m) {
        JsonType::Number
    } else {
        JsonType::String
    }
}

/// The type to fill into a property schema, if it lacks one: none when it has
/// a `type` or a combinator, or an empty `enum`; else from `enum`, from
/// `const`, or from its structure.
pub open spec fn missing_type(m: Seq<(Seq<char>, Json)>) -> Option<JsonType> {
    if has_key(m, "type"@) || has_combinator(m) {
        None
    } else {
        match obj_get(m, "enum"@) {
            Some(Json::Array(vals)) => if vals.len() > 0 {
                Some(type_of_values(vals))
            } else {
                None
            },
            _ => if has_key(m, "const"@) {
                Some(type_of_values(seq![obj_get(m, "const"@)->0]))
            } else {
                Some(type_of_structure(m))
            },
        }
    }
}

/// A property schema after normalization: its nested schemas normalized, and
/// its missing `type` filled in.
pub open spec fn normalized(j: Json) -> Json
    decreases j, 0nat,
{
    match j {
        Json::Object(m) => {
            let c = children_normalized(m);
            Json::Object(
                match missing_type(m) {
                    Some(t) => obj_insert(c, "type"@, Json::Str(type_keyword(t))),
                    None => c,
                },
            )
        },
        _ => j,
    }
}

/// The entries of a schema with the schemas nested under them normalized.
pub open spec fn children_normalized(m: Seq<(Seq<char>, Json)>) -> Seq<(Seq<char>, Json)>
    decreases m, 1nat,
{
    Seq::new(
        m.len(),
        |i: int|
            if 0 <= i < m.len() {
                (m[i].0, child_normalized(m[i].0, m[i].1))
            } else {
                (Seq::empty(), Json::Null)
            },
    )
}

/// The keywords under which a list of schemas stands.
pub open spec fn is_branch_keyword(k: Seq<char>) -> bool {
    k == "anyOf"@ || k == "oneOf"@ || k == "allOf"@
}

/// The value under key `k` of a schema, with the schemas it holds normalized:
/// each property under `properties`, the schema or schemas under `items`, the
/// schema under `additionalProperties`, and each branch of `anyOf`, `oneOf`
/// and `allOf`.
pub open spec fn child_normalized(k: Seq<char>, v: Json) -> Json
    decreases v, 2nat,
{
    if k == "properties"@ {
        match v {
            Json::Object(p) => Json::Object(values_normalized(p)),
            _ => v,
        }
    } else if k == "items"@ {
        match v {
            Json::Object(_) => normalized(v),
            Json::Array(a) => Json::Array(all_normalized(a)),
            _ => v,
        }
    } else if k == "additionalProperties"@ {
        match v {
            Json::Object(_) => normalized(v),
            _ => v,
        }
    } else if is_branch_keyword(k) {
        match v {
            Json::Array(a) => Json::Array(all_normalized(a)),
            _ => v,
        }
    } else {
        v
    }
}

/// Each schema of a list normalized.
pub open spec fn all_normalized(a: Seq<Json>) -> Seq<Json>
    decreases a, 3nat,
{
    Seq::new(a.len(), |i: int| if 0 <= i < a.len() { normalized(a[i]) } else { Json::Null })
}

/// Each value of a map of schemas normalized.
pub open spec fn values_normalized(p: Seq<(Seq<char>, Json)>) -> Seq<(Seq<char>, Json)>
    decreases p, 3nat,
{
    Seq::new(
        p.len(),
        |i: int|
            if 0 <= i < p.len() {
                (p[i].0, normalized(p[i].1))
            } else {
                (Seq::empty(), Json::Null)
            },
    )
}

/// A schema with `type` filled into the property schemas it contains; the
/// schema itself is a container and keeps its own keys.
pub open spec fn with_property_types(j: Json) -> Json {
    match j {
        Json::Object(m) => Json::Object(children_normalized(m)),
        _ => j,
    }
}

/// The keywords under which normalization looks for nested schemas.
pub open spec fn is_nesting_keyword(k: Seq<char>) -> bool {
    k == "properties"@ || k == "items"@ || k == "additionalProperties"@ || is_branch_keyword(k)
}

proof fn lemma_keyword_literals()
    ensures
        !is_nesting_keyword("type"@),
        !is_nesting_keyword("enum"@),
{
    reveal_strlit("type");
    reveal_strlit("enum");
    reveal_strlit("properties");
    reveal_strlit("items");
    reveal_strlit("additionalProperties");
    reveal_strlit("anyOf");
    reveal_strlit("oneOf");
    reveal_strlit("allOf");
    assert("type"@.len() == 4);
    assert("enum"@.len() == 4);
    assert("items"@.len() == 5);
    assert("anyOf"@.len() == 5);
    assert("oneOf"@.len() == 5);
    assert("allOf"@.len() == 5);
    assert("properties"@.len() == 10);
    assert("additionalProperties"@.len() == 20);
}

/// Normalizing the entries of a schema keeps its keys, position by position,
/// and the values under keys that hold no nested schemas.
proof fn lemma_children_shape(m: Seq<(Seq<char>, Json)>, k: Seq<char>)
    ensures
        children_normalized(m).len() == m.len(),
        forall|i: int|
            0 <= i < m.len() ==> #[trigger] children_normalized(m)[i] == (
                m[i].0,
                child_normalized(m[i].0, m[i].1),
            ),
        has_key(children_normalized(m), k) == has_key(m, k),
        !is_nesting_keyword(k) ==> obj_get(children_normalized(m), k) == obj_get(m, k),
{
    let c = children_normalized(m);
    assert forall|i: int| 0 <= i < m.len() implies (#[trigger] m[i]).0 == c[i].0 by {}
    lemma_same_keys(m, c, k);
}

/// After normalization a property schema needs no `type` any more.
proof fn lemma_no_missing_type_after(m: Seq<(Seq<char>, Json)>)
    ensures
        missing_type(normalized(Json::Object(m))->Object_0) is None,
{
    let c = children_normalized(m);
    lemma_keyword_literals();
    lemma_children_shape(m, "type"@);
    lemma_children_shape(m, "enum"@);
    lemma_children_shape(m, "anyOf"@);
    lemma_children_shape(m, "oneOf"@);
    lemma_children_shape(m, "allOf"@);
    lemma_children_shape(m, "not"@);
    lemma_children_shape(m, "if"@);
    lemma_children_shape(m, "then"@);
    lemma_children_shape(m, "else"@);
    lemma_children_shape(m, "$ref"@);
    match missing_type(m) {
        Some(t) => {
            lemma_insert_get(c, "type"@, Json::Str(type_keyword(t)), "type"@);
        },
        None => {},
    }
}

proof fn lemma_normalized_idempotent(j: Json)
    ensures
        normalized(normalized(j)) == normalized(j),
    decreases j, 0nat,
{
    match j {
        Json::Object(m) => {
            let c = children_normalized(m);
            lemma_children_idempotent(m);
            lemma_no_missing_type_after(m);
            let n = normalized(j)->Object_0;
            match missing_type(m) {
                Some(t) => {
                    lemma_keyword_literals();
                    lemma_children_shape(m, "type"@);
                    let entry = ("type"@, Json::Str(type_keyword(t)));
                    assert(n == c.push(entry));
                    lemma_children_shape(n, "type"@);
                    assert(children_normalized(n) =~= children_normalized(c).push(entry)) by {
                        assert forall|i: int| 0 <= i < n.len() implies #[trigger] children_normalized(n)[i]
                            == children_normalized(c).push(entry)[i] by {
                            if i < c.len() {
                                lemma_children_shape(c, "type"@);
                            }
                        }
                    }
                },
                None => {
                    assert(n == c);
                },
            }
        },
        _ => {},
    }
}

proof fn lemma_children_idempotent(m: Seq<(Seq<char>, Json)>)
    ensures
        children_normalized(children_normalized(m)) == children_normalized(m),
    decreases m, 1nat,
{
    let c = children_normalized(m);
    lemma_children_shape(m, "type"@);
    lemma_children_shape(c, "type"@);
    assert forall|i: int| 0 <= i < c.len() implies #[trigger] children_normalized(c)[i] == c[i] by {
        assert(decreases_to!(m => m[i].1));
        lemma_child_idempotent(m[i].0, m[i].1);
    }
    assert(children_normalized(c) =~= c);
}

proof fn lemma_child_idempotent(k: Seq<char>, v: Json)
    ensures
        child_normalized(k, child_normalized(k, v)) == child_normalized(k, v),
    decreases v, 2nat,
{
    if k == "properties"@ {
        match v {
            Json::Object(p) => {
                lemma_values_idempotent(p);
            },
            _ => {},
        }
    } else if k == "items"@ {
        match v {
            Json::Object(_) => {
                lemma_normalized_idempotent(v);
            },
            Json::Array(a) => {
                lemma_all_idempotent(a);
            },
            _ => {},
        }
    } else if k == "additionalProperties"@ {
        match v {
            Json::Object(_) => {
                lemma_normalized_idempotent(v);
            },
            _ => {},
        }
    } else if is_branch_keyword(k) {
        match v {
            Json::Array(a) => {
                lemma_all_idempotent(a);
            },
            _ => {},
        }
    }
}

proof fn lemma_all_idempotent(a: Seq<Json>)
    ensures
        all_normalized(all_normalized(a)) == all_normalized(a),
    decreases a, 3nat,
{
    assert forall|i: int| 0 <= i < a.len() implies #[trigger] all_normalized(all_normalized(a))[i]
        == all_normalized(a)[i] by {
        assert(decreases_to!(a => a[i]));
        lemma_normalized_idempotent(a[i]);
    }
    assert(all_normalized(all_normalized(a)) =~= all_normalized(a));
}

proof fn lemma_values_idempotent(p: Seq<(Seq<char>, Json)>)
    ensures
        values_normalized(values_normalized(p)) == values_normalized(p),
    decreases p, 3nat,
{
    assert forall|i: int| 0 <= i < p.len() implies #[trigger] values_normalized(values_normalized(p))[i]
        == values_normalized(p)[i] by {
        assert(decreases_to!(p => p[i].1));
        lemma_normalized_idempotent(p[i].1);
    }
    assert(values_normalized(values_normalized(p)) =~= values_normalized(p));
}

/// Filling in property types a second time changes nothing.
pub proof fn law_property_types_idempotent(schema: Json)
    ensures
        with_property_types(with_property_types(schema)) == with_property_types(schema),
{
    match schema {
        Json::Object(m) => {
            lemma_children_idempotent(m);
        },
        _ => {},
    }
}

/// The outer schema is a container: it keeps its keys in their order, and
/// every value under a key that holds no nested schemas, its own `type`
/// among them.
pub proof fn law_container_kept(m: Seq<(Seq<char>, Json)>, k: Seq<char>)
    requires
        !is_nesting_keyword(k),
    ensures
        with_property_types(Json::Object(m))->Object_0.len() == m.len(),
        forall|i: int|
            0 <= i < m.len() ==> (#[trigger] with_property_types(Json::Object(m))->Object_0[i]).0
                == m[i].0,
        obj_get(with_property_types(Json::Object(m))->Object_0, k) == obj_get(m, k),
{
    lemma_children_shape(m, k);
}

/// A property schema that declares a `type` keeps it.
pub proof fn law_declared_type_kept(m: Seq<(Seq<char>, Json)>)
    requires
        has_key(m, "type"@),
    ensures
        obj_get(normalized(Json::Object(m))->Object_0, "type"@) == obj_get(m, "type"@),
{
    lemma_keyword_literals();
    lemma_children_shape(m, "type"@);
}

/// A property schema that declares its shape by a combinator (`anyOf`,
/// `oneOf`, `allOf`, `not`, `if`, `then`, `else` or `$ref`) gains no `type`.
pub proof fn law_combinator_left_alone(m: Seq<(Seq<char>, Json)>)
    requires
        has_combinator(m),
    ensures
        obj_get(normalized(Json::Object(m))->Object_0, "type"@) == obj_get(m, "type"@),
{
    lemma_keyword_literals();
    lemma_children_shape(m, "type"@);
}

/// A property schema without `type`, combinator or empty `enum` gains the
/// type that its values or structure show.
pub proof fn law_missing_type_filled(m: Seq<(Seq<char>, Json)>)
    requires
        missing_type(m) is Some,
    ensures
        obj_get(normalized(Json::Object(m))->Object_0, "type"@) == Some(
            Json::Str(type_keyword(missing_type(m)->0)),
        ),
{
    lemma_insert_get(children_normalized(m), "type"@, Json::Str(type_keyword(missing_type(m)->0)), "type"@);
}

/// Each branch of `anyOf`, `oneOf` and `allOf` in a property schema is
/// normalized as a property schema of its own: the list under such a key
/// keeps its length, each branch becomes its normalized form, and every
/// branch that is an object ends with a `type`, a combinator or an empty
/// `enum`.
pub proof fn law_branches_normalized(m: Seq<(Seq<char>, Json)>, k: Seq<char>, a: Seq<Json>)
    requires
        k == "anyOf"@ || k == "oneOf"@ || k == "allOf"@,
        obj_get(m, k) == Some(Json::Array(a)),
    ensures
        obj_get(normalized(Json::Object(m))->Object_0, k) matches Some(Json::Array(b)) && b.len() == a.len() && (
        forall|i: int|
            0 <= i < a.len() ==> #[trigger] b[i] == normalized(a[i]) && (b[i] is Object ==> missing_type(
                b[i]->Object_0,
            ) is None)),
{
    reveal_strlit("type");
    reveal_strlit("properties");
    reveal_strlit("items");
    reveal_strlit("additionalProperties");
    reveal_strlit("anyOf");
    reveal_strlit("oneOf");
    reveal_strlit("allOf");
    assert("type"@.len() == 4 && "items"@.len() == 5 && "properties"@.len() == 10);
    assert("additionalProperties"@.len() == 20);
    assert("anyOf"@.len() == 5 && "oneOf"@.len() == 5 && "allOf"@.len() == 5);
    assert("items"@[0] != "anyOf"@[0] && "items"@[0] != "oneOf"@[0] && "items"@[0] != "allOf"@[0]);
    assert(k != "type"@ && k != "properties"@ && k != "items"@ && k != "additionalProperties"@);
    assert(is_branch_keyword(k));
    let c = children_normalized(m);
    lemma_children_shape(m, k);
    let p = key_pos(m, k);
    lemma_first_key_unique(m, k, p);
    assert(is_first_key(c, k, p)) by {
        assert forall|j: int| 0 <= j < p implies (#[trigger] c[j]).0 != k by {
            assert(m[j].0 != k);
        }
    }
    lemma_first_key_unique(c, k, p);
    let b = all_normalized(a);
    assert(obj_get(c, k) == Some(Json::Array(b)));
    match missing_type(m) {
        Some(t) => {
            lemma_insert_get(c, "type"@, Json::Str(type_keyword(t)), k);
        },
        None => {},
    }
    assert forall|i: int| 0 <= i < a.len() implies #[trigger] b[i] == normalized(a[i]) && (b[i] is Object
        ==> missing_type(b[i]->Object_0) is None) by {
        match a[i] {
            Json::Object(am) => {
                lemma_no_missing_type_after(am);
            },
            _ => {},
        }
    }
}

/// A lookup in the normalized entries finds the normalized value.
proof fn lemma_child_get(m: Seq<(Seq<char>, Json)>, k: Seq<char>)
    requires
        has_key(m, k),
    ensures
        obj_get(children_normalized(m), k) == Some(child_normalized(k, obj_get(m, k)->Some_0)),
{
    let c = children_normalized(m);
    lemma_children_shape(m, k);
    let p = key_pos(m, k);
    lemma_first_key_unique(m, k, p);
    assert(is_first_key(c, k, p)) by {
        assert forall|j: int| 0 <= j < p implies (#[trigger] c[j]).0 != k by {
            assert(m[j].0 != k);
        }
    }
    lemma_first_key_unique(c, k, p);
}

/// Every property of the outer schema is normalized: the `properties`
/// table keeps its names in order, and each property schema becomes its
/// normalized form (so one that is an object ends with a `type`, a
/// combinator or an empty `enum`).
pub proof fn law_properties_normalized(m: Seq<(Seq<char>, Json)>, p: Seq<(Seq<char>, Json)>)
    requires
        obj_get(m, "properties"@) == Some(Json::Object(p)),
    ensures
        obj_get(with_property_types(Json::Object(m))->Object_0, "properties"@) matches Some(Json::Object(q))
            && q.len() == p.len() && (forall|i: int|
            0 <= i < p.len() ==> (#[trigger] q[i]).0 == p[i].0 && q[i].1 == normalized(p[i].1) && (q[i].1 is Object
                ==> missing_type(q[i].1->Object_0) is None)),
{
    lemma_child_get(m, "properties"@);
    let q = values_normalized(p);
    assert forall|i: int| 0 <= i < p.len() implies (#[trigger] q[i]).0 == p[i].0 && q[i].1 == normalized(p[i].1) && (
    q[i].1 is Object ==> missing_type(q[i].1->Object_0) is None) by {
        match p[i].1 {
            Json::Object(pm) => {
                lemma_no_missing_type_after(pm);
            },
            _ => {},
        }
    }
}

/// The schemas a property schema holds under `items` and
/// `additionalProperties` are normalized too: an object there becomes its
/// normalized form, and each schema of a list under `items` does.
pub proof fn law_item_schemas_normalized(m: Seq<(Seq<char>, Json)>)
    ensures
        obj_get(m, "items"@) matches Some(Json::Object(x)) ==> obj_get(normalized(Json::Object(m))->Object_0, "items"@)
            == Some(normalized(Json::Object(x))),
        obj_get(m, "items"@) matches Some(Json::Array(a)) ==> obj_get(normalized(Json::Object(m))->Object_0, "items"@)
            matches Some(Json::Array(b)) && b.len() == a.len() && forall|i: int|
            0 <= i < a.len() ==> #[trigger] b[i] == normalized(a[i]),
        obj_get(m, "additionalProperties"@) matches Some(Json::Object(x)) ==> obj_get(
            normalized(Json::Object(m))->Object_0,
            "additionalProperties"@,
        ) == Some(normalized(Json::Object(x))),
{
    reveal_strlit("type");
    reveal_strlit("properties");
    reveal_strlit("items");
    reveal_strlit("additionalProperties");
    assert("type"@.len() == 4 && "items"@.len() == 5 && "properties"@.len() == 10);
    assert("additionalProperties"@.len() == 20);
    let c = children_normalized(m);
    let ks = seq!["items"@, "additionalProperties"@];
    assert forall|i: int| 0 <= i < 2 implies obj_get(normalized(Json::Object(m))->Object_0, #[trigger] ks[i]) == obj_get(
        c,
        ks[i],
    ) by {
        match missing_type(m) {
            Some(t) => {
                lemma_insert_get(c, "type"@, Json::Str(type_keyword(t)), ks[i]);
            },
            None => {},
        }
    }
    assert(obj_get(normalized(Json::Object(m))->Object_0, ks[0]) == obj_get(c, ks[0]));
    assert(obj_get(normalized(Json::Object(m))->Object_0, ks[1]) == obj_get(c, ks[1]));
    if has_key(m, "items"@) {
        lemma_child_get(m, "items"@);
    }
    if has_key(m, "additionalProperties"@) {
        lemma_child_get(m, "additionalProperties"@);
    }
}

fn has_combinator_exec(m: &Vec<(String, JsonValue)>) -> (r: bool)
    ensures
        r == has_combinator(entries_view(m@)),
{
    contains_key(m, "anyOf") || contains_key(m, "oneOf") || contains_key(m, "allOf")
        || contains_key(m, "not") || contains_key(m, "if") || contains_key(m, "then")
        || contains_key(m, "else") || contains_key(m, "$ref")
}

fn type_of_structure_exec(m: &Vec<(String, JsonValue)>) -> (r: JsonType)
    ensures
        r == type_of_structure(entries_view(m@)),
{
    if contains_key(m, "properties") || contains_key(m, "additionalProperties") || contains_key(
        m,
        "patternProperties",
    ) || contains_key(m, "propertyNames") || contains_key(m, "required") || contains_key(
        m,
        "minProperties",
    ) || contains_key(m, "maxProperties") {
        JsonType::Object
    } else if contains_key(m, "items") || contains_key(m, "prefixItems") || contains_key(
        m,
        "minItems",
    ) || contains_key(m, "maxItems") || contains_key(m, "uniqueItems") || contains_key(
        m,
        "contains",
    ) {
        JsonType::Array
    } else if contains_key(m, "minLength") || contains_key(m, "maxLength") || contains_key(
        m,
        "pattern",
    ) || contains_key(m, "format") {
        JsonType::String
    } else if contains_key(m, "minimum") || contains_key(m, "maximum") || contains_key(
        m,
        "multipleOf",
    ) || contains_key(m, "exclusiveMinimum") || contains_key(m, "exclusiveMaximum") {
        JsonType::Number
    } else {
        JsonType::String
    }
}

fn type_of_values_exec(vals: &Vec<JsonValue>) -> (r: JsonType)
    ensures
        r == type_of_values(items_view(vals@)),
{
    let ghost iv = items_view(vals@);
    if vals.len() == 0 {
        return JsonType::String;
    }
    let first = kind_of_value(&vals[0]);
    let mut all_same = true;
    let mut all_numeric = true;
    let mut i: usize = 0;
    while i < vals.len()
        invariant
            0 < vals.len(),
            i <= vals.len(),
            iv == items_view(vals@),
            first == kind_of(iv[0]),
            all_same == forall|j: int| 0 <= j < i ==> kind_of(#[trigger] iv[j]) == first,
            all_numeric == forall|j: int|
                0 <= j < i ==> kind_of(#[trigger] iv[j]) == JsonType::Integer || kind_of(iv[j])
                    == JsonType::Number,
        decreases vals.len() - i,
    {
        let k = kind_of_value(&vals[i]);
        assert(iv[i as int] == vals@[i as int]@);
        if k != first {
            all_same = false;
        }
        if k != JsonType::Integer && k != JsonType::Number {
            all_numeric = false;
        }
        i = i + 1;
    }
    if all_same {
        first
    } else if all_numeric {
        JsonType::Number
    } else {
        JsonType::String
    }
}

/// The type to fill into the property schema with entries `m`, if any.
fn missing_type_exec(m: &Vec<(String, JsonValue)>) -> (r: Option<JsonType>)
    ensures
        r == missing_type(entries_view(m@)),
{
    if contains_key(m, "type") || has_combinator_exec(m) {
        return None;
    }
    match get_value(m, "enum") {
        Some(JsonValue::Array(vals)) => {
            proof {
                lemma_array_view(*vals);
            }
            if vals.len() > 0 {
                Some(type_of_values_exec(vals))
            } else {
                None
            }
        },
        _ => {
            match get_value(m, "const") {
                Some(c) => {
                    let k = kind_of_value(c);
                    assert(type_of_values(seq![c@]) == kind_of(c@));
                    Some(k)
                },
                None => Some(type_of_structure_exec(m)),
            }
        },
    }
}

/// Normalizes a property schema.
fn normalize_property(v: &JsonValue) -> (r: JsonValue)
    ensures
        r@ == normalized(v@),
    decreases v, 0nat,
{
    match v {
        JsonValue::Object(m) => {
            proof {
                lemma_object_view(*m);
            }
            let t = missing_type_exec(m);
            let mut c = normalize_children(m);
            match t {
                Some(t) => {
                    insert_value(&mut c, "type", JsonValue::String(type_keyword_string(t)));
                },
                None => {},
            }
            proof {
                lemma_object_view(c);
            }
            JsonValue::Object(c)
        },
        _ => v.duplicate(),
    }
}

/// Normalizes the schemas that the entries `m` hold.
fn normalize_children(m: &Vec<(String, JsonValue)>) -> (r: Vec<(String, JsonValue)>)
    ensures
        entries_view(r@) == children_normalized(entries_view(m@)),
    decreases m, 1nat,
{
    let mut out: Vec<(String, JsonValue)> = Vec::new();
    let mut i: usize = 0;
    while i < m.len()
        invariant
            i <= m.len(),
            out@.len() == i,
            forall|j: int|
                0 <= j < i ==> (#[trigger] out@[j]).0@ == m@[j].0@ && out@[j].1@
                    == child_normalized(m@[j].0@, m@[j].1@),
        decreases m.len() - i,
    {
        proof {
            assert(decreases_to!(*m => m@[i as int].1));
        }
        let key = m[i].0.clone();
        let val = normalize_child(&m[i].0, &m[i].1);
        out.push((key, val));
        i = i + 1;
    }
    assert(entries_view(out@) =~= children_normalized(entries_view(m@)));
    out
}

/// Normalizes the schemas that the value `v` under key `k` holds.
fn normalize_child(k: &String, v: &JsonValue) -> (r: JsonValue)
    ensures
        r@ == child_normalized(k@, v@),
    decreases v, 2nat,
{
    let key = k.as_str();
    if crate::text::str_equal(key, "properties") {
        match v {
            JsonValue::Object(p) => {
                proof {
                    lemma_object_view(*p);
                }
                let out = normalize_values(p);
                proof {
                    lemma_object_view(out);
                }
                JsonValue::Object(out)
            },
            _ => v.duplicate(),
        }
    } else if crate::text::str_equal(key, "items") {
        match v {
            JsonValue::Object(_) => normalize_property(v),
            JsonValue::Array(a) => {
                proof {
                    lemma_array_view(*a);
                }
                let out = normalize_all(a);
                proof {
                    lemma_array_view(out);
                }
                JsonValue::Array(out)
            },
            _ => v.duplicate(),
        }
    } else if crate::text::str_equal(key, "additionalProperties") {
        match v {
            JsonValue::Object(_) => normalize_property(v),
            _ => v.duplicate(),
        }
    } else if crate::text::str_equal(key, "anyOf") || crate::text::str_equal(key, "oneOf")
        || crate::text::str_equal(key, "allOf") {
        match v {
            JsonValue::Array(a) => {
                proof {
                    lemma_array_view(*a);
                }
                let out = normalize_all(a);
                proof {
                    lemma_array_view(out);
                }
                JsonValue::Array(out)
            },
            _ => v.duplicate(),
        }
    } else {
        v.duplicate()
    }
}

/// Normalizes each schema of a list.
fn normalize_all(a: &Vec<JsonValue>) -> (r: Vec<JsonValue>)
    ensures
        items_view(r@) == all_normalized(items_view(a@)),
    decreases a, 3nat,
{
    let mut out: Vec<JsonValue> = Vec::new();
    let mut i: usize = 0;
    while i < a.len()
        invariant
            i <= a.len(),
            out@.len() == i,
            forall|j: int| 0 <= j < i ==> (#[trigger] out@[j])@ == normalized(a@[j]@),
        decreases a.len() - i,
    {
        proof {
            assert(decreases_to!(*a => a@[i as int]));
        }
        out.push(normalize_property(&a[i]));
        i = i + 1;
    }
    assert(items_view(out@) =~= all_normalized(items_view(a@)));
    out
}

/// Normalizes each value of a map of schemas.
fn normalize_values(p: &Vec<(String, JsonValue)>) -> (r: Vec<(String, JsonValue)>)
    ensures
        entries_view(r@) == values_normalized(entries_view(p@)),
    decreases p, 3nat,
{
    let mut out: Vec<(String, JsonValue)> = Vec::new();
    let mut i: usize = 0;
    while i < p.len()
        invariant
            i <= p.len(),
            out@.len() == i,
            forall|j: int|
                0 <= j < i ==> (#[trigger] out@[j]).0@ == p@[j].0@ && out@[j].1@ == normalized(
                    p@[j].1@,
                ),
        decreases p.len() - i,
    {
        proof {
            assert(decreases_to!(*p => p@[i as int].1));
        }
        let key = p[i].0.clone();
        let val = normalize_property(&p[i].1);
        out.push((key, val));
        i = i + 1;
    }
    assert(entries_view(out@) =~= values_normalized(entries_view(p@)));
    out
}

/// A copy of `schema` with an explicit `type` on every property schema it
/// contains (see `with_property_types`); `schema` itself is left as it is.
pub fn ensure_property_types(schema: &JsonValue) -> (r: JsonValue)
    ensures
        r@ == with_property_types(schema@),
{
    match schema {
        JsonValue::Object(m) => {
            proof {
                lemma_object_view(*m);
            }
            let c = normalize_children(m);
            proof {
                lemma_object_view(c);
            }
            JsonValue::Object(c)
        },
        _ => schema.duplicate(),
    }
}

/// `s` without the copies of `c` it starts with.
pub open spec fn trim_leading(s: Seq<char>, c: char) -> Seq<char>
    decreases s.len(),
{
    if s.len() > 0 && s[0] == c {
        trim_leading(s.drop_first(), c)
    } else {
        s
    }
}

/// Following the keys `parts` from `cur` down through objects.
pub open spec fn walk(cur: Json, parts: Seq<Seq<char>>) -> Option<Json>
    decreases parts.len(),
{
    if parts.len() == 0 {
        Some(cur)
    } else {
        match cur {
            Json::Object(m) => match obj_get(m, parts[0]) {
                Some(next) => walk(next, parts.drop_first()),
                None => None,
            },
            _ => None,
        }
    }
}

/// The value that a local JSON pointer (`#/a/b`) names in `root`.
pub open spec fn resolved_pointer(root: Json, pointer: Seq<char>) -> Option<Json> {
    let t = trim_leading(trim_leading(pointer, '#'), '/');
    if t.len() == 0 {
        Some(root)
    } else {
        walk(root, split_on(t, '/'))
    }
}

/// `m` with the entries of `tm` set in order.
pub open spec fn insert_all(m: Seq<(Seq<char>, Json)>, tm: Seq<(Seq<char>, Json)>) -> Seq<
    (Seq<char>, Json),
>
    decreases tm.len(),
{
    if tm.len() == 0 {
        m
    } else {
        insert_all(obj_insert(m, tm[0].0, tm[0].1), tm.drop_first())
    }
}

/// The local reference that an object with entries `m` carries: its `$ref`,
/// when that is a string starting with `#`.
pub open spec fn local_ref(m: Seq<(Seq<char>, Json)>) -> Option<Seq<char>> {
    match obj_get(m, "$ref"@) {
        Some(Json::Str(p)) => if p.len() > 0 && p[0] == '#' {
            Some(p)
        } else {
            None
        },
        _ => None,
    }
}

/// The number of objects within `j` that carry a `$ref` string.
pub open spec fn ref_count(j: Json) -> nat
    decreases j,
{
    match j {
        Json::Object(m) => (if obj_get(m, "$ref"@) matches Some(Json::Str(_)) {
            1nat
        } else {
            0nat
        }) + entries_ref_count(m),
        Json::Array(a) => items_ref_count(a),
        _ => 0,
    }
}

/// The number of objects within the values of `m` that carry a `$ref`.
pub open spec fn entries_ref_count(m: Seq<(Seq<char>, Json)>) -> nat
    decreases m,
{
    if m.len() == 0 {
        0
    } else {
        ref_count(m[0].1) + entries_ref_count(m.drop_first())
    }
}

/// The number of objects within the items of `a` that carry a `$ref`.
pub open spec fn items_ref_count(a: Seq<Json>) -> nat
    decreases a,
{
    if a.len() == 0 {
        0
    } else {
        ref_count(a[0]) + items_ref_count(a.drop_first())
    }
}

/// How many references a chain of expansions may hold for `root`: the number
/// of `$ref` objects in it (capped at what a `u64` holds). A chain of
/// distinct references of `root` never reaches it.
pub open spec fn ref_budget(root: Json) -> nat {
    if ref_count(root) > u64::MAX {
        u64::MAX as nat
    } else {
        ref_count(root)
    }
}

/// What is left of the budget once `chain` is followed.
pub open spec fn budget_left(root: Json, chain: Seq<Seq<char>>) -> nat {
    if chain.len() < ref_budget(root) {
        (ref_budget(root) - chain.len()) as nat
    } else {
        0
    }
}

/// `node` with its local references expanded against `root`, while the
/// references in `chain` are being expanded.
///
/// Every object and array has its values expanded. An object whose `$ref`
/// resolves, and is not already being expanded, also takes the expansion of
/// what it names, when that is an object: those entries are laid over its
/// own expanded entries less the `$ref`. A reference that leads back to one
/// being expanded stays as it is, so expansion always ends.
pub open spec fn expanded(node: Json, root: Json, chain: Seq<Seq<char>>) -> Json
    decreases budget_left(root, chain), node,
{
    match node {
        Json::Object(m) => {
            let plain = Json::Object(expanded_entries(m, root, chain));
            match local_ref(m) {
                Some(p) => if !chain.contains(p) && chain.len() < ref_budget(root) {
                    match resolved_pointer(root, p) {
                        Some(target) => match expanded(target, root, chain.push(p)) {
                            Json::Object(tm) => Json::Object(
                                insert_all(obj_remove(expanded_entries(m, root, chain), "$ref"@), tm),
                            ),
                            _ => plain,
                        },
                        None => plain,
                    }
                } else {
                    plain
                },
                None => plain,
            }
        },
        Json::Array(a) => Json::Array(expanded_items(a, root, chain)),
        _ => node,
    }
}

/// Each value of `m` expanded.
pub open spec fn expanded_entries(m: Seq<(Seq<char>, Json)>, root: Json, chain: Seq<Seq<char>>) -> Seq<
    (Seq<char>, Json),
>
    decreases budget_left(root, chain), m,
{
    if m.len() == 0 {
        Seq::empty()
    } else {
        seq![(m[0].0, expanded(m[0].1, root, chain))] + expanded_entries(m.drop_first(), root, chain)
    }
}

/// Each item of `a` expanded.
pub open spec fn expanded_items(a: Seq<Json>, root: Json, chain: Seq<Seq<char>>) -> Seq<Json>
    decreases budget_left(root, chain), a,
{
    if a.len() == 0 {
        Seq::empty()
    } else {
        seq![expanded(a[0], root, chain)] + expanded_items(a.drop_first(), root, chain)
    }
}

/// The first position at or after `from` where `v` holds no `c`.
fn skip_leading(v: &Vec<char>, from: usize, c: char) -> (r: usize)
    requires
        from <= v.len(),
    ensures
        from <= r <= v.len(),
        trim_leading(v@.skip(from as int), c) == v@.skip(r as int),
{
    let mut i = from;
    while i < v.len() && v[i] == c
        invariant
            from <= i <= v.len(),
            trim_leading(v@.skip(from as int), c) == trim_leading(v@.skip(i as int), c),
        decreases v.len() - i,
    {
        assert(v@.skip(i as int).drop_first() =~= v@.skip(i + 1));
        i = i + 1;
    }
    if i == v.len() {
        assert(v@.skip(i as int).len() == 0);
    }
    i
}

/// The value that the local JSON pointer `pointer` (`#/a/b`) names in `root`.
fn resolve_pointer(root: &JsonValue, pointer: &str) -> (r: Option<JsonValue>)
    ensures
        match r {
            Some(v) => resolved_pointer(root@, pointer@) == Some(v@),
            None => resolved_pointer(root@, pointer@) is None,
        },
{
    let cs = str_chars(pointer);
    let i = skip_leading(&cs, 0, '#');
    assert(cs@.skip(0) == cs@);
    let j = skip_leading(&cs, i, '/');
    if j == cs.len() {
        return Some(root.duplicate());
    }
    let mut rest: Vec<char> = Vec::new();
    let mut k: usize = j;
    while k < cs.len()
        invariant
            j <= k <= cs.len(),
            rest@ == cs@.subrange(j as int, k as int),
        decreases cs.len() - k,
    {
        rest.push(cs[k]);
        assert(cs@.subrange(j as int, k + 1) == cs@.subrange(j as int, k as int).push(cs@[k as int]));
        k = k + 1;
    }
    assert(rest@ =~= cs@.skip(j as int));
    let parts = split_chars(&rest, '/');
    let ghost pv = strs_view(parts@);
    let mut cur: &JsonValue = root;
    let mut n: usize = 0;
    assert(pv.skip(0) =~= pv);
    assert(resolved_pointer(root@, pointer@) == walk(root@, pv));
    while n < parts.len()
        invariant
            n <= parts.len(),
            pv == strs_view(parts@),
            resolved_pointer(root@, pointer@) == walk(root@, pv),
            walk(root@, pv) == walk(cur@, pv.skip(n as int)),
        decreases parts.len() - n,
    {
        assert(pv.skip(n as int).len() > 0);
        assert(pv.skip(n as int)[0] == parts@[n as int]@);
        assert(pv.skip(n as int).drop_first() =~= pv.skip(n + 1));
        match cur {
            JsonValue::Object(m) => {
                proof {
                    lemma_object_view(*m);
                }
                match get_value(m, parts[n].as_str()) {
                    Some(next) => {
                        cur = next;
                    },
                    None => {
                        return None;
                    },
                }
            },
            _ => {
                return None;
            },
        }
        n = n + 1;
    }
    assert(pv.skip(n as int).len() == 0);
    Some(cur.duplicate())
}

/// Sets each entry of `tm`, in order, in `out`.
fn insert_each(out: &mut Vec<(String, JsonValue)>, tm: &Vec<(String, JsonValue)>)
    ensures
        entries_view(final(out)@) == insert_all(entries_view(old(out)@), entries_view(tm@)),
{
    let ghost tv = entries_view(tm@);
    let mut i: usize = 0;
    assert(tv.skip(0) =~= tv);
    while i < tm.len()
        invariant
            i <= tm.len(),
            tv == entries_view(tm@),
            insert_all(entries_view(old(out)@), tv) == insert_all(entries_view(out@), tv.skip(i as int)),
        decreases tm.len() - i,
    {
        assert(tv.skip(i as int)[0] == tv[i as int]);
        assert(tv.skip(i as int).drop_first() =~= tv.skip(i + 1));
        let v = tm[i].1.duplicate();
        insert_value(out, tm[i].0.as_str(), v);
        i = i + 1;
    }
    assert(tv.skip(i as int).len() == 0);
}

/// Whether `p` starts with `#`.
fn starts_with_hash(p: &str) -> (r: bool)
    ensures
        r == (p@.len() > 0 && p@[0] == '#'),
{
    let cs = str_chars(p);
    cs.len() > 0 && cs[0] == '#'
}

/// Whether `chain` holds `p`.
fn chain_holds(chain: &Vec<String>, p: &str) -> (r: bool)
    ensures
        r == strs_view(chain@).contains(p@),
{
    let ghost cv = strs_view(chain@);
    let mut i: usize = 0;
    while i < chain.len()
        invariant
            i <= chain.len(),
            cv == strs_view(chain@),
            forall|j: int| 0 <= j < i ==> cv[j] != p@,
        decreases chain.len() - i,
    {
        if str_equal(chain[i].as_str(), p) {
            assert(cv[i as int] == p@);
            return true;
        }
        i = i + 1;
    }
    false
}

/// `chain` with `p` at the end.
fn chain_with(chain: &Vec<String>, p: &str) -> (r: Vec<String>)
    ensures
        strs_view(r@) == strs_view(chain@).push(p@),
{
    let mut out: Vec<String> = Vec::new();
    let mut i: usize = 0;
    while i < chain.len()
        invariant
            i <= chain.len(),
            strs_view(out@) == strs_view(chain@).take(i as int),
        decreases chain.len() - i,
    {
        out.push(chain[i].clone());
        assert(strs_view(chain@).take(i + 1) =~= strs_view(chain@).take(i as int).push(chain@[i as int]@));
        assert(strs_view(out@) =~= strs_view(chain@).take(i + 1));
        i = i + 1;
    }
    assert(strs_view(chain@).take(i as int) =~= strs_view(chain@));
    out.push(string_of(p));
    assert(strs_view(out@) =~= strs_view(chain@).push(p@));
    out
}

/// The local reference of the object with entries `m` (see `local_ref`).
fn local_ref_of(m: &Vec<(String, JsonValue)>) -> (r: Option<&String>)
    ensures
        match r {
            Some(p) => local_ref(entries_view(m@)) == Some(p@),
            None => local_ref(entries_view(m@)) is None,
        },
{
    match get_value(m, "$ref") {
        Some(JsonValue::String(p)) => {
            if starts_with_hash(p.as_str()) {
                Some(p)
            } else {
                None
            }
        },
        _ => None,
    }
}

/// The number of `$ref` objects within `j`, capped at `u64::MAX` (see
/// `ref_budget`).
#[verifier::loop_isolation(false)]
fn count_refs(j: &JsonValue) -> (r: u64)
    ensures
        r == (if ref_count(j@) > u64::MAX {
            u64::MAX as nat
        } else {
            ref_count(j@)
        }),
    decreases j,
{
    match j {
        JsonValue::Object(m) => {
            proof {
                lemma_object_view(*m);
            }
            let mut total: u64 = match get_value(m, "$ref") {
                Some(JsonValue::String(_)) => 1,
                _ => 0,
            };
            let ghost ev = entries_view(m@);
            let ghost own: nat = total as nat;
            let mut i: usize = 0;
            assert(ev.skip(0) =~= ev);
            while i < m.len()
                invariant
                    i <= m.len(),
                    ev == entries_view(m@),
                    ref_count(Json::Object(ev)) == own + entries_ref_count(ev),
                    total == (if own + entries_ref_count(ev) - entries_ref_count(ev.skip(i as int)) > u64::MAX {
                        u64::MAX as nat
                    } else {
                        (own + entries_ref_count(ev) - entries_ref_count(ev.skip(i as int))) as nat
                    }),
                    entries_ref_count(ev.skip(i as int)) <= entries_ref_count(ev),
                decreases m.len() - i,
            {
                assert(ev.skip(i as int)[0] == ev[i as int]);
                assert(ev.skip(i as int).drop_first() =~= ev.skip(i + 1));
                proof {
                    assert(decreases_to!(*j => m@[i as int].1));
                }
                let c = count_refs(&m[i].1);
                total = if total > u64::MAX - c {
                    u64::MAX
                } else {
                    total + c
                };
                i = i + 1;
            }
            assert(ev.skip(i as int).len() == 0);
            total
        },
        JsonValue::Array(a) => {
            proof {
                lemma_array_view(*a);
            }
            let ghost iv = items_view(a@);
            let mut total: u64 = 0;
            let mut i: usize = 0;
            assert(iv.skip(0) =~= iv);
            while i < a.len()
                invariant
                    i <= a.len(),
                    iv == items_view(a@),
                    total == (if items_ref_count(iv) - items_ref_count(iv.skip(i as int)) > u64::MAX {
                        u64::MAX as nat
                    } else {
                        (items_ref_count(iv) - items_ref_count(iv.skip(i as int))) as nat
                    }),
                    items_ref_count(iv.skip(i as int)) <= items_ref_count(iv),
                decreases a.len() - i,
            {
                assert(iv.skip(i as int)[0] == iv[i as int]);
                assert(iv.skip(i as int).drop_first() =~= iv.skip(i + 1));
                proof {
                    assert(decreases_to!(*j => a@[i as int]));
                }
                let c = count_refs(&a[i]);
                total = if total > u64::MAX - c {
                    u64::MAX
                } else {
                    total + c
                };
                i = i + 1;
            }
            assert(iv.skip(i as int).len() == 0);
            total
        },
        _ => 0,
    }
}

/// Expands the local references in `node` while those of `chain` are being
/// expanded (see `expanded`).
fn traverse(node: &JsonValue, root: &JsonValue, chain: &Vec<String>, budget: u64) -> (r: JsonValue)
    requires
        budget == ref_budget(root@),
    ensures
        r@ == expanded(node@, root@, strs_view(chain@)),
    decreases budget_left(root@, strs_view(chain@)), node,
{
    match node {
        JsonValue::Object(m) => {
            proof {
                lemma_object_view(*m);
            }
            match local_ref_of(m) {
                Some(p) => {
                    if !chain_holds(chain, p.as_str()) && (chain.len() as u64) < budget {
                        match resolve_pointer(root, p.as_str()) {
                            Some(target) => {
                                let next = chain_with(chain, p.as_str());
                                let resolved = traverse(&target, root, &next, budget);
                                match resolved {
                                    JsonValue::Object(tm) => {
                                        proof {
                                            lemma_object_view(tm);
                                        }
                                        let mut out = traverse_entries(m, root, chain, budget);
                                        remove_value(&mut out, "$ref");
                                        insert_each(&mut out, &tm);
                                        proof {
                                            lemma_object_view(out);
                                        }
                                        return JsonValue::Object(out);
                                    },
                                    _ => {},
                                }
                            },
                            None => {},
                        }
                    }
                },
                None => {},
            }
            let out = traverse_entries(m, root, chain, budget);
            proof {
                lemma_object_view(out);
            }
            JsonValue::Object(out)
        },
        JsonValue::Array(a) => {
            proof {
                lemma_array_view(*a);
            }
            let out = traverse_items(a, root, chain, budget);
            proof {
                lemma_array_view(out);
            }
            JsonValue::Array(out)
        },
        _ => node.duplicate(),
    }
}

/// Expands the references in each value of `m`.
fn traverse_entries(m: &Vec<(String, JsonValue)>, root: &JsonValue, chain: &Vec<String>, budget: u64) -> (r: Vec<
    (String, JsonValue),
>)
    requires
        budget == ref_budget(root@),
    ensures
        entries_view(r@) == expanded_entries(entries_view(m@), root@, strs_view(chain@)),
    decreases budget_left(root@, strs_view(chain@)), m,
{
    let ghost cv = strs_view(chain@);
    let ghost ev = entries_view(m@);
    let ghost whole = expanded_entries(ev, root@, cv);
    let mut out: Vec<(String, JsonValue)> = Vec::new();
    let mut i: usize = 0;
    assert(ev.skip(0) =~= ev);
    assert(entries_view(out@) =~= Seq::<(Seq<char>, Json)>::empty());
    assert(Seq::<(Seq<char>, Json)>::empty() + whole =~= whole);
    while i < m.len()
        invariant
            i <= m.len(),
            budget == ref_budget(root@),
            cv == strs_view(chain@),
            ev == entries_view(m@),
            whole == expanded_entries(ev, root@, cv),
            entries_view(out@) + expanded_entries(ev.skip(i as int), root@, cv) == whole,
        decreases m.len() - i,
    {
        assert(ev.skip(i as int)[0] == ev[i as int]);
        assert(ev.skip(i as int).drop_first() =~= ev.skip(i + 1));
        proof {
            assert(decreases_to!(*m => m@[i as int].1));
        }
        let key = m[i].0.clone();
        let val = traverse(&m[i].1, root, chain, budget);
        let ghost before = entries_view(out@);
        out.push((key, val));
        assert(entries_view(out@) =~= before.push((m@[i as int].0@, val@)));
        assert(before + expanded_entries(ev.skip(i as int), root@, cv) =~= entries_view(out@)
            + expanded_entries(ev.skip(i + 1), root@, cv));
        i = i + 1;
    }
    assert(ev.skip(i as int).len() == 0);
    assert(entries_view(out@) =~= whole);
    out
}

/// Expands the references in each item of `a`.
fn traverse_items(a: &Vec<JsonValue>, root: &JsonValue, chain: &Vec<String>, budget: u64) -> (r: Vec<JsonValue>)
    requires
        budget == ref_budget(root@),
    ensures
        items_view(r@) == expanded_items(items_view(a@), root@, strs_view(chain@)),
    decreases budget_left(root@, strs_view(chain@)), a,
{
    let ghost cv = strs_view(chain@);
    let ghost iv = items_view(a@);
    let ghost whole = expanded_items(iv, root@, cv);
    let mut out: Vec<JsonValue> = Vec::new();
    let mut i: usize = 0;
    assert(iv.skip(0) =~= iv);
    assert(items_view(out@) =~= Seq::<Json>::empty());
    assert(Seq::<Json>::empty() + whole =~= whole);
    while i < a.len()
        invariant
            i <= a.len(),
            budget == ref_budget(root@),
            cv == strs_view(chain@),
            iv == items_view(a@),
            whole == expanded_items(iv, root@, cv),
            items_view(out@) + expanded_items(iv.skip(i as int), root@, cv) == whole,
        decreases a.len() - i,
    {
        assert(iv.skip(i as int)[0] == iv[i as int]);
        assert(iv.skip(i as int).drop_first() =~= iv.skip(i + 1));
        proof {
            assert(decreases_to!(*a => a@[i as int]));
        }
        let val = traverse(&a[i], root, chain, budget);
        let ghost before = items_view(out@);
        out.push(val);
        assert(items_view(out@) =~= before.push(val@));
        assert(before + expanded_items(iv.skip(i as int), root@, cv) =~= items_view(out@)
            + expanded_items(iv.skip(i + 1), root@, cv));
        i = i + 1;
    }
    assert(iv.skip(i as int).len() == 0);
    assert(items_view(out@) =~= whole);
    out
}

/// No object within `j` holds a `$ref`.
pub open spec fn ref_free(j: Json) -> bool
    decreases j,
{
    match j {
        Json::Object(m) => !has_key(m, "$ref"@) && entries_ref_free(m),
        Json::Array(a) => items_ref_free(a),
        _ => true,
    }
}

pub open spec fn entries_ref_free(m: Seq<(Seq<char>, Json)>) -> bool
    decreases m,
{
    m.len() == 0 || (ref_free(m[0].1) && entries_ref_free(m.drop_first()))
}

pub open spec fn items_ref_free(a: Seq<Json>) -> bool
    decreases a,
{
    a.len() == 0 || (ref_free(a[0]) && items_ref_free(a.drop_first()))
}

proof fn lemma_ref_free_expanded(j: Json, root: Json, chain: Seq<Seq<char>>)
    requires
        ref_free(j),
    ensures
        expanded(j, root, chain) == j,
    decreases j,
{
    match j {
        Json::Object(m) => {
            lemma_entries_ref_free_expanded(m, root, chain);
        },
        Json::Array(a) => {
            lemma_items_ref_free_expanded(a, root, chain);
        },
        _ => {},
    }
}

proof fn lemma_entries_ref_free_expanded(m: Seq<(Seq<char>, Json)>, root: Json, chain: Seq<Seq<char>>)
    requires
        entries_ref_free(m),
    ensures
        expanded_entries(m, root, chain) == m,
    decreases m,
{
    if m.len() > 0 {
        lemma_ref_free_expanded(m[0].1, root, chain);
        lemma_entries_ref_free_expanded(m.drop_first(), root, chain);
        assert(seq![(m[0].0, m[0].1)] + m.drop_first() =~= m);
    }
}

proof fn lemma_items_ref_free_expanded(a: Seq<Json>, root: Json, chain: Seq<Seq<char>>)
    requires
        items_ref_free(a),
    ensures
        expanded_items(a, root, chain) == a,
    decreases a,
{
    if a.len() > 0 {
        lemma_ref_free_expanded(a[0], root, chain);
        lemma_items_ref_free_expanded(a.drop_first(), root, chain);
        assert(seq![a[0]] + a.drop_first() =~= a);
    }
}

/// `j` without its top-level `$defs` and `definitions`.
pub open spec fn without_definitions(j: Json) -> Json {
    match j {
        Json::Object(m) => Json::Object(obj_remove(obj_remove(m, "$defs"@), "definitions"@)),
        _ => j,
    }
}

/// `schema` with its local `$ref` entries expanded and its top-level
/// `$defs` and `definitions` dropped.
pub open spec fn dereferenced(schema: Json) -> Json {
    without_definitions(expanded(schema, schema, Seq::empty()))
}

/// Each item of `a` expanded, position by position.
proof fn lemma_expanded_items_at(a: Seq<Json>, root: Json, chain: Seq<Seq<char>>)
    ensures
        expanded_items(a, root, chain).len() == a.len(),
        forall|i: int| 0 <= i < a.len() ==> #[trigger] expanded_items(a, root, chain)[i] == expanded(a[i], root, chain),
    decreases a.len(),
{
    if a.len() > 0 {
        lemma_expanded_items_at(a.drop_first(), root, chain);
        let rest = expanded_items(a.drop_first(), root, chain);
        assert forall|i: int| 0 <= i < a.len() implies #[trigger] expanded_items(a, root, chain)[i] == expanded(
            a[i],
            root,
            chain,
        ) by {
            if i > 0 {
                assert(expanded_items(a, root, chain)[i] == rest[i - 1]);
                assert(a.drop_first()[i - 1] == a[i]);
            }
        }
    }
}

/// A local reference inside an array is expanded like one anywhere else: an
/// array expands to an array of the same length whose every item is the
/// expansion of the item in its place.
pub proof fn law_array_items_expanded(a: Seq<Json>, root: Json, chain: Seq<Seq<char>>)
    ensures
        expanded(Json::Array(a), root, chain) matches Json::Array(b) && b.len() == a.len() && (forall|i: int|
            0 <= i < a.len() ==> #[trigger] b[i] == expanded(a[i], root, chain)),
{
    lemma_expanded_items_at(a, root, chain);
}

/// Setting entries with distinct keys, none of them in `x`, appends them.
proof fn lemma_insert_all_fresh(x: Seq<(Seq<char>, Json)>, y: Seq<(Seq<char>, Json)>)
    requires
        crate::json::keys_distinct(y),
        forall|j: int| 0 <= j < y.len() ==> !has_key(x, #[trigger] y[j].0),
    ensures
        insert_all(x, y) == x + y,
    decreases y.len(),
{
    if y.len() == 0 {
        assert(x + y =~= x);
    } else {
        let x1 = obj_insert(x, y[0].0, y[0].1);
        assert(x1 == x.push(y[0]));
        let y1 = y.drop_first();
        assert forall|j: int| 0 <= j < y1.len() implies !has_key(x1, #[trigger] y1[j].0) by {
            assert(y1[j] == y[j + 1]);
            lemma_insert_get(x, y[0].0, y[0].1, y1[j].0);
            assert(y[0].0 != y[j + 1].0);
        }
        assert forall|i: int, j: int| 0 <= i < j < y1.len() implies #[trigger] y1[i].0 != #[trigger] y1[j].0 by {
            assert(y1[i] == y[i + 1] && y1[j] == y[j + 1]);
        }
        lemma_insert_all_fresh(x1, y1);
        assert(x1 + y1 =~= x + y);
    }
}

/// An object that is only a local reference, which resolves to an object
/// holding no reference and each key once, expands to that object, when the
/// reference is not already being expanded and the budget allows one more.
pub proof fn law_lone_ref_replaced(p: Seq<char>, root: Json, chain: Seq<Seq<char>>, tm: Seq<(Seq<char>, Json)>)
    requires
        p.len() > 0 && p[0] == '#',
        !chain.contains(p),
        chain.len() < ref_budget(root),
        resolved_pointer(root, p) == Some(Json::Object(tm)),
        ref_free(Json::Object(tm)),
        crate::json::keys_distinct(tm),
    ensures
        expanded(Json::Object(seq![("$ref"@, Json::Str(p))]), root, chain) == Json::Object(tm),
{
    let m = seq![("$ref"@, Json::Str(p))];
    lemma_first_key_unique(m, "$ref"@, 0);
    assert(local_ref(m) == Some(p));
    lemma_ref_free_expanded(Json::Object(tm), root, chain.push(p));
    let e = expanded_entries(m, root, chain);
    assert(m.drop_first() =~= Seq::<(Seq<char>, Json)>::empty());
    assert(expanded_entries(m.drop_first(), root, chain) == Seq::<(Seq<char>, Json)>::empty());
    assert(expanded(Json::Str(p), root, chain) == Json::Str(p));
    assert(e == seq![(m[0].0, expanded(m[0].1, root, chain))] + expanded_entries(m.drop_first(), root, chain));
    assert(e =~= m);
    let r = obj_remove(e, "$ref"@);
    assert(r =~= Seq::<(Seq<char>, Json)>::empty());
    assert forall|j: int| 0 <= j < tm.len() implies !has_key(r, #[trigger] tm[j].0) by {
        if has_key(r, tm[j].0) {
            let q = key_pos(r, tm[j].0);
        }
    }
    lemma_insert_all_fresh(r, tm);
    assert(r + tm =~= tm);
}

/// A schema without `$ref` comes back as it was, less its top-level `$defs`
/// and `definitions`.
pub proof fn law_ref_free_schema_kept(schema: Json)
    requires
        ref_free(schema),
    ensures
        dereferenced(schema) == without_definitions(schema),
{
    lemma_ref_free_expanded(schema, schema, Seq::empty());
}

/// Expands the local `$ref` entries of a JSON Schema and drops its top-level
/// `$defs` and `definitions` (see `dereferenced`); a reference that leads
/// back to one being expanded is left as it is, so this ends on every
/// schema.
pub fn deref_json_schema(schema: &JsonValue) -> (r: JsonValue)
    ensures
        r@ == dereferenced(schema@),
{
    let budget = count_refs(schema);
    let chain: Vec<String> = Vec::new();
    assert(strs_view(chain@) =~= Seq::<Seq<char>>::empty());
    let resolved = traverse(schema, schema, &chain, budget);
    match resolved {
        JsonValue::Object(m) => {
            proof {
                lemma_object_view(m);
            }
            let mut m = m;
            remove_value(&mut m, "$defs");
            remove_value(&mut m, "definitions");
            proof {
                lemma_object_view(m);
            }
            JsonValue::Object(m)
        },
        other => other,
    }
}

} // verus!
