//! A JSON document model held as plain values, and its mathematical view.
//!
//! An object is a list of entries. Lookups, insertions and removals act on the
//! first entry that carries a key, which is the whole story for the objects
//! this library builds: they never hold a key twice.
use vstd::prelude::*;
use crate::text::{str_equal, string_of};

verus! {

/// A JSON number: a non-negative integer, a negative integer, or a value with
/// a fraction or exponent, held by the bits of its IEEE-754 double.
#[derive(Debug, Clone, Copy, PartialEq, Eq, Structural)]
pub enum JsonNumber {
    PosInt(u64),
    NegInt(i64),
    Float(u64),
}

/// A JSON value.
#[derive(Debug, PartialEq)]
pub enum JsonValue {
    Null,
    Bool(bool),
    Number(JsonNumber),
    String(String),
    Array(Vec<JsonValue>),
    Object(Vec<(String, JsonValue)>),
}

/// The mathematical view of a JSON value.
pub enum Json {
    Null,
    Bool(bool),
    Number(JsonNumber),
    Str(Seq<char>),
    Array(Seq<Json>),
    Object(Seq<(Seq<char>, Json)>),
}

/// The view of `v`.
pub open spec fn json_view(v: JsonValue) -> Json
    decreases v,
{
    match v {
        JsonValue::Null => Json::Null,
        JsonValue::Bool(b) => Json::Bool(b),
        JsonValue::Number(n) => Json::Number(n),
        JsonValue::String(s) => Json::Str(s@),
        JsonValue::Array(items) => Json::Array(
            Seq::new(
                items@.len(),
                |i: int|
                    if 0 <= i < items@.len() {
                        json_view(items@[i])
                    } else {
                        Json::Null
                    },
            ),
        ),
        JsonValue::Object(entries) => Json::Object(
            Seq::new(
                entries@.len(),
                |i: int|
                    if 0 <= i < entries@.len() {
                        (entries@[i].0@, json_view(entries@[i].1))
                    } else {
                        (Seq::empty(), Json::Null)
                    },
            ),
        ),
    }
}

impl View for JsonValue {
    type V = Json;

    open spec fn view(&self) -> Json {
        json_view(*self)
    }
}

/// The view of a list of values.
pub open spec fn items_view(s: Seq<JsonValue>) -> Seq<Json> {
    Seq::new(s.len(), |i: int| s[i]@)
}

/// The view of a list of entries.
pub open spec fn entries_view(m: Seq<(String, JsonValue)>) -> Seq<(Seq<char>, Json)> {
    Seq::new(m.len(), |i: int| (m[i].0@, m[i].1@))
}

pub proof fn lemma_array_view(items: Vec<JsonValue>)
    ensures
        JsonValue::Array(items)@ == Json::Array(items_view(items@)),
{
    assert(JsonValue::Array(items)@->Array_0 =~= items_view(items@));
}

pub proof fn lemma_object_view(entries: Vec<(String, JsonValue)>)
    ensures
        JsonValue::Object(entries)@ == Json::Object(entries_view(entries@)),
{
    assert(JsonValue::Object(entries)@->Object_0 =~= entries_view(entries@));
}

/// `i` is the first position of `m` whose key is `k`.
pub open spec fn is_first_key(m: Seq<(Seq<char>, Json)>, k: Seq<char>, i: int) -> bool {
    &&& 0 <= i < m.len()
    &&& m[i].0 == k
    &&& forall|j: int| 0 <= j < i ==> (#[trigger] m[j]).0 != k
}

/// Some entry of `m` carries the key `k`.
pub open spec fn has_key(m: Seq<(Seq<char>, Json)>, k: Seq<char>) -> bool {
    exists|i: int| is_first_key(m, k, i)
}

/// The position of the first entry of `m` with key `k`.
pub open spec fn key_pos(m: Seq<(Seq<char>, Json)>, k: Seq<char>) -> int {
    choose|i: int| is_first_key(m, k, i)
}

/// What a lookup of `k` in `m` gives.
pub open spec fn obj_get(m: Seq<(Seq<char>, Json)>, k: Seq<char>) -> Option<Json> {
    if has_key(m, k) {
        Some(m[key_pos(m, k)].1)
    } else {
        None
    }
}

/// `m` after setting `k` to `v`: the first entry with that key takes the new
/// value in place, or the pair goes at the end.
pub open spec fn obj_insert(m: Seq<(Seq<char>, Json)>, k: Seq<char>, v: Json) -> Seq<(Seq<char>, Json)> {
    if has_key(m, k) {
        m.update(key_pos(m, k), (k, v))
    } else {
        m.push((k, v))
    }
}

/// `m` without the first entry with key `k`.
pub open spec fn obj_remove(m: Seq<(Seq<char>, Json)>, k: Seq<char>) -> Seq<(Seq<char>, Json)> {
    if has_key(m, k) {
        m.remove(key_pos(m, k))
    } else {
        m
    }
}

pub proof fn lemma_first_key_unique(m: Seq<(Seq<char>, Json)>, k: Seq<char>, i: int)
    requires
        is_first_key(m, k, i),
    ensures
        has_key(m, k),
        key_pos(m, k) == i,
        obj_get(m, k) == Some(m[i].1),
{
    let p = key_pos(m, k);
    if p < i {
        assert(m[p].0 != k);
    } else if i < p {
        assert(m[i].0 != k);
    }
}

/// A key that some entry of `m` carries is found.
pub proof fn lemma_has_key_at(m: Seq<(Seq<char>, Json)>, k: Seq<char>, i: int)
    requires
        0 <= i < m.len(),
        m[i].0 == k,
    ensures
        has_key(m, k),
    decreases i,
{
    if exists|j: int| 0 <= j < i && m[j].0 == k {
        let j = choose|j: int| 0 <= j < i && m[j].0 == k;
        lemma_has_key_at(m, k, j);
    } else {
        assert(is_first_key(m, k, i));
    }
}

/// Two lists with the same keys, position by position, find a key at the same position.
pub proof fn lemma_same_keys(m1: Seq<(Seq<char>, Json)>, m2: Seq<(Seq<char>, Json)>, k: Seq<char>)
    requires
        m1.len() == m2.len(),
        forall|i: int| 0 <= i < m1.len() ==> (#[trigger] m1[i]).0 == m2[i].0,
    ensures
        has_key(m1, k) == has_key(m2, k),
        has_key(m1, k) ==> key_pos(m1, k) == key_pos(m2, k),
{
    if has_key(m1, k) {
        let p = key_pos(m1, k);
        assert(is_first_key(m2, k, p)) by {
            assert forall|j: int| 0 <= j < p implies (#[trigger] m2[j]).0 != k by {
                assert(m1[j].0 != k);
            }
        }
        lemma_first_key_unique(m2, k, p);
    }
    if has_key(m2, k) {
        let p = key_pos(m2, k);
        assert(is_first_key(m1, k, p)) by {
            assert forall|j: int| 0 <= j < p implies (#[trigger] m1[j]).0 != k by {
                assert(m2[j].0 != k);
            }
        }
    }
}

/// What a lookup gives after an insertion.
pub proof fn lemma_insert_get(m: Seq<(Seq<char>, Json)>, k: Seq<char>, v: Json, k2: Seq<char>)
    ensures
        obj_get(obj_insert(m, k, v), k2) == (if k2 == k {
            Some(v)
        } else {
            obj_get(m, k2)
        }),
        has_key(obj_insert(m, k, v), k2) == (k2 == k || has_key(m, k2)),
{
    let m2 = obj_insert(m, k, v);
    if has_key(m, k) {
        let p = key_pos(m, k);
        assert forall|i: int| 0 <= i < m.len() implies (#[trigger] m[i]).0 == m2[i].0 by {}
        lemma_same_keys(m, m2, k2);
        if has_key(m, k2) {
            let q = key_pos(m, k2);
            if k2 == k {
                assert(q == p);
                lemma_first_key_unique(m2, k2, q);
            } else {
                assert(q != p);
                lemma_first_key_unique(m2, k2, q);
            }
        }
    } else {
        if k2 == k {
            assert(is_first_key(m2, k2, m.len() as int)) by {
                assert forall|j: int| 0 <= j < m.len() implies (#[trigger] m2[j]).0 != k2 by {
                    if m2[j].0 == k2 {
                        lemma_has_key_at(m, k, j);
                    }
                }
            }
            lemma_first_key_unique(m2, k2, m.len() as int);
        } else {
            if has_key(m, k2) {
                let q = key_pos(m, k2);
                assert(is_first_key(m2, k2, q));
                lemma_first_key_unique(m2, k2, q);
            }
            if has_key(m2, k2) {
                let q = key_pos(m2, k2);
                assert(q < m.len());
                assert forall|j: int| 0 <= j < q implies (#[trigger] m[j]).0 != k2 by {
                    assert(m2[j] == m[j]);
                }
                assert(m2[q] == m[q]);
                assert(is_first_key(m, k2, q));
            }
        }
    }
}

/// No two entries of `m` share a key.
pub open spec fn keys_distinct(m: Seq<(Seq<char>, Json)>) -> bool {
    forall|i: int, j: int| 0 <= i < j < m.len() ==> #[trigger] m[i].0 != #[trigger] m[j].0
}

/// What a lookup gives after a removal, where no key occurs twice; the
/// removal keeps keys distinct.
pub proof fn lemma_remove_get(m: Seq<(Seq<char>, Json)>, k: Seq<char>, k2: Seq<char>)
    requires
        keys_distinct(m),
    ensures
        keys_distinct(obj_remove(m, k)),
        obj_get(obj_remove(m, k), k2) == (if k2 == k {
            None
        } else {
            obj_get(m, k2)
        }),
{
    if has_key(m, k) {
        let p = key_pos(m, k);
        lemma_first_key_unique(m, k, p);
        let r = m.remove(p);
        assert forall|i: int, j: int| 0 <= i < j < r.len() implies #[trigger] r[i].0 != #[trigger] r[j].0 by {
            let a = if i < p { i } else { i + 1 };
            let b = if j < p { j } else { j + 1 };
            assert(r[i] == m[a] && r[j] == m[b] && a < b);
        }
        if k2 == k {
            if has_key(r, k) {
                let q = key_pos(r, k);
                let a = if q < p { q } else { q + 1 };
                assert(r[q] == m[a]);
                assert(a != p);
                if a < p {
                    assert(m[a].0 != m[p].0);
                } else {
                    assert(m[p].0 != m[a].0);
                }
            }
        } else if has_key(m, k2) {
            let q = key_pos(m, k2);
            lemma_first_key_unique(m, k2, q);
            assert(q != p);
            let q2 = if q < p { q } else { q - 1 };
            assert(r[q2] == m[q]);
            assert forall|j: int| 0 <= j < q2 implies (#[trigger] r[j]).0 != k2 by {
                let a = if j < p { j } else { j + 1 };
                assert(r[j] == m[a]);
                assert(a < q);
            }
            assert(is_first_key(r, k2, q2));
            lemma_first_key_unique(r, k2, q2);
        } else if has_key(r, k2) {
            let q = key_pos(r, k2);
            let a = if q < p { q } else { q + 1 };
            assert(r[q] == m[a]);
            lemma_has_key_at(m, k2, a);
        }
    }
}

/// Setting a key keeps keys distinct.
pub proof fn lemma_insert_distinct(m: Seq<(Seq<char>, Json)>, k: Seq<char>, v: Json)
    requires
        keys_distinct(m),
    ensures
        keys_distinct(obj_insert(m, k, v)),
{
    let r = obj_insert(m, k, v);
    if has_key(m, k) {
        let p = key_pos(m, k);
        lemma_first_key_unique(m, k, p);
        assert forall|i: int, j: int| 0 <= i < j < r.len() implies #[trigger] r[i].0 != #[trigger] r[j].0 by {
            assert(r[i].0 == m[i].0 && r[j].0 == m[j].0);
        }
    } else {
        assert forall|i: int, j: int| 0 <= i < j < r.len() implies #[trigger] r[i].0 != #[trigger] r[j].0 by {
            if j == m.len() {
                if m[i].0 == k {
                    lemma_has_key_at(m, k, i);
                }
            } else {
                assert(r[i] == m[i] && r[j] == m[j]);
            }
        }
    }
}

/// Setting a key to the value it already has changes nothing.
pub proof fn lemma_insert_same(m: Seq<(Seq<char>, Json)>, k: Seq<char>, v: Json)
    requires
        obj_get(m, k) == Some(v),
    ensures
        obj_insert(m, k, v) == m,
{
    let p = key_pos(m, k);
    lemma_first_key_unique(m, k, p);
    assert(m[p] == (k, v));
    assert(m.update(p, (k, v)) =~= m);
}

/// The position of the first entry of `m` whose key is `k`.
pub fn find_key(m: &Vec<(String, JsonValue)>, k: &str) -> (r: Option<usize>)
    ensures
        match r {
            Some(i) => is_first_key(entries_view(m@), k@, i as int),
            None => !has_key(entries_view(m@), k@),
        },
{
    let ghost ev = entries_view(m@);
    let mut i: usize = 0;
    while i < m.len()
        invariant
            i <= m.len(),
            ev == entries_view(m@),
            forall|j: int| 0 <= j < i ==> (#[trigger] ev[j]).0 != k@,
        decreases m.len() - i,
    {
        if str_equal(m[i].0.as_str(), k) {
            return Some(i);
        }
        i = i + 1;
    }
    None
}

/// Whether `m` holds the key `k`.
pub fn contains_key(m: &Vec<(String, JsonValue)>, k: &str) -> (r: bool)
    ensures
        r == has_key(entries_view(m@), k@),
{
    match find_key(m, k) {
        Some(i) => {
            proof {
                lemma_first_key_unique(entries_view(m@), k@, i as int);
            }
            true
        },
        None => false,
    }
}

/// The value that `m` holds under `k`.
pub fn get_value<'a>(m: &'a Vec<(String, JsonValue)>, k: &str) -> (r: Option<&'a JsonValue>)
    ensures
        match r {
            Some(v) => obj_get(entries_view(m@), k@) == Some(v@),
            None => obj_get(entries_view(m@), k@) is None,
        },
{
    match find_key(m, k) {
        Some(i) => {
            proof {
                lemma_first_key_unique(entries_view(m@), k@, i as int);
            }
            Some(&m[i].1)
        },
        None => None,
    }
}

/// Sets `k` to `v` in `m`.
pub fn insert_value(m: &mut Vec<(String, JsonValue)>, k: &str, v: JsonValue)
    ensures
        entries_view(final(m)@) == obj_insert(entries_view(old(m)@), k@, v@),
{
    match find_key(m, k) {
        Some(i) => {
            proof {
                lemma_first_key_unique(entries_view(m@), k@, i as int);
            }
            let ghost before = m@;
            let key = string_of(k);
            m.set(i, (key, v));
            assert(entries_view(m@) =~= obj_insert(entries_view(before), k@, v@));
        },
        None => {
            let ghost before = m@;
            m.push((string_of(k), v));
            assert(entries_view(m@) =~= obj_insert(entries_view(before), k@, v@));
        },
    }
}

/// Removes `k` from `m`, giving back the value it held.
pub fn remove_value(m: &mut Vec<(String, JsonValue)>, k: &str) -> (r: Option<JsonValue>)
    ensures
        entries_view(final(m)@) == obj_remove(entries_view(old(m)@), k@),
        match r {
            Some(v) => obj_get(entries_view(old(m)@), k@) == Some(v@),
            None => obj_get(entries_view(old(m)@), k@) is None,
        },
{
    match find_key(m, k) {
        Some(i) => {
            proof {
                lemma_first_key_unique(entries_view(m@), k@, i as int);
            }
            let ghost before = m@;
            let (_key, v) = m.remove(i);
            assert(entries_view(m@) =~= obj_remove(entries_view(before), k@));
            Some(v)
        },
        None => None,
    }
}

/// A copy of the entries `m`.
pub fn duplicate_entries(m: &Vec<(String, JsonValue)>) -> (r: Vec<(String, JsonValue)>)
    ensures
        entries_view(r@) == entries_view(m@),
{
    let mut out: Vec<(String, JsonValue)> = Vec::new();
    let mut i: usize = 0;
    while i < m.len()
        invariant
            i <= m.len(),
            out@.len() == i,
            forall|j: int|
                0 <= j < i ==> (#[trigger] out@[j]).0@ == m@[j].0@ && out@[j].1@ == m@[j].1@,
        decreases m.len() - i,
    {
        let key = m[i].0.clone();
        let val = m[i].1.duplicate();
        out.push((key, val));
        i = i + 1;
    }
    assert(entries_view(out@) =~= entries_view(m@));
    out
}

impl JsonValue {
    /// A copy of this value.
    #[verifier::loop_isolation(false)]
    pub fn duplicate(&self) -> (r: JsonValue)
        ensures
            r@ == self@,
        decreases self,
    {
        match self {
            JsonValue::Null => JsonValue::Null,
            JsonValue::Bool(b) => JsonValue::Bool(*b),
            JsonValue::Number(n) => JsonValue::Number(*n),
            JsonValue::String(s) => JsonValue::String(s.clone()),
            JsonValue::Array(items) => {
                let mut out: Vec<JsonValue> = Vec::new();
                let mut i: usize = 0;
                while i < items.len()
                    invariant
                        i <= items.len(),
                        out@.len() == i,
                        forall|j: int| 0 <= j < i ==> (#[trigger] out@[j])@ == items@[j]@,
                    decreases items.len() - i,
                {
                    proof {
                        assert(decreases_to!(*self => items@[i as int]));
                    }
                    out.push(items[i].duplicate());
                    i = i + 1;
                }
                proof {
                    lemma_array_view(out);
                    lemma_array_view(*items);
                    assert(items_view(out@) =~= items_view(items@));
                }
                JsonValue::Array(out)
            },
            JsonValue::Object(entries) => {
                let mut out: Vec<(String, JsonValue)> = Vec::new();
                let mut i: usize = 0;
                while i < entries.len()
                    invariant
                        i <= entries.len(),
                        out@.len() == i,
                        forall|j: int|
                            0 <= j < i ==> (#[trigger] out@[j]).0@ == entries@[j].0@ && out@[j].1@
                                == entries@[j].1@,
                    decreases entries.len() - i,
                {
                    proof {
                        assert(decreases_to!(*self => entries@[i as int].1));
                    }
                    let key = entries[i].0.clone();
                    let val = entries[i].1.duplicate();
                    out.push((key, val));
                    i = i + 1;
                }
                proof {
                    lemma_object_view(out);
                    lemma_object_view(*entries);
                    assert(entries_view(out@) =~= entries_view(entries@));
                }
                JsonValue::Object(out)
            },
        }
    }
}

/// The value under `k` of `j`, when `j` is an object that holds it.
pub open spec fn member(j: Json, k: Seq<char>) -> Option<Json> {
    match j {
        Json::Object(m) => obj_get(m, k),
        _ => None,
    }
}

/// The text under `k` of `j`, when `j` is an object that holds a string
/// there.
pub open spec fn str_member(j: Json, k: Seq<char>) -> Option<Seq<char>> {
    match member(j, k) {
        Some(Json::Str(s)) => Some(s),
        _ => None,
    }
}

/// The value under `k` of `j` (see `member`).
pub fn member_of<'a>(j: &'a JsonValue, k: &str) -> (r: Option<&'a JsonValue>)
    ensures
        match r {
            Some(v) => member(j@, k@) == Some(v@),
            None => member(j@, k@) is None,
        },
{
    match j {
        JsonValue::Object(m) => {
            proof {
                lemma_object_view(*m);
            }
            get_value(m, k)
        },
        _ => None,
    }
}

/// The text under `k` of `j` (see `str_member`).
pub fn str_member_of<'a>(j: &'a JsonValue, k: &str) -> (r: Option<&'a String>)
    ensures
        match r {
            Some(s) => str_member(j@, k@) == Some(s@),
            None => str_member(j@, k@) is None,
        },
{
    match member_of(j, k) {
        Some(JsonValue::String(s)) => Some(s),
        _ => None,
    }
}

} // verus!
