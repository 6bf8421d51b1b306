//! System prompt templates: `${NAME}` placeholders filled from a set of
//! named values.
use vstd::prelude::*;
use crate::text::{
    append_str, chars_range_to_string, join, lemma_join_push, str_chars, str_equal, string_of, strs_view,
    trim_prefix_to_string, trimmed,
};

verus! {

/// Strict lexicographic order of strings by their characters' code points,
/// which is the order `str` compares in (UTF-8 keeps code point order).
pub open spec fn str_lt(a: Seq<char>, b: Seq<char>) -> bool
    decreases a.len(),
{
    if b.len() == 0 {
        false
    } else if a.len() == 0 {
        true
    } else if a[0] != b[0] {
        (a[0] as u32) < (b[0] as u32)
    } else {
        str_lt(a.drop_first(), b.drop_first())
    }
}

pub proof fn lemma_str_lt_irreflexive(a: Seq<char>)
    ensures
        !str_lt(a, a),
    decreases a.len(),
{
    if a.len() > 0 {
        lemma_str_lt_irreflexive(a.drop_first());
    }
}

pub proof fn lemma_str_lt_transitive(a: Seq<char>, b: Seq<char>, c: Seq<char>)
    requires
        str_lt(a, b),
        str_lt(b, c),
    ensures
        str_lt(a, c),
    decreases a.len(),
{
    if a.len() > 0 && b.len() > 0 && c.len() > 0 {
        if a[0] == b[0] && b[0] == c[0] {
            lemma_str_lt_transitive(a.drop_first(), b.drop_first(), c.drop_first());
        }
    }
}

pub proof fn lemma_str_lt_total(a: Seq<char>, b: Seq<char>)
    ensures
        a == b || str_lt(a, b) || str_lt(b, a),
    decreases a.len(),
{
    if a.len() > 0 && b.len() > 0 && a[0] == b[0] {
        lemma_str_lt_total(a.drop_first(), b.drop_first());
        if a.drop_first() == b.drop_first() {
            assert(a =~= seq![a[0]] + a.drop_first());
            assert(b =~= seq![b[0]] + b.drop_first());
        }
    } else if a.len() == 0 && b.len() == 0 {
        assert(a =~= b);
    } else if a.len() > 0 && b.len() > 0 {
        vstd::utf8::char_u32_cast(a[0], a[0] as u32);
        vstd::utf8::char_u32_cast(b[0], b[0] as u32);
    }
}

/// Whether `a` sorts before `b`.
pub fn string_less(a: &str, b: &str) -> (r: bool)
    ensures
        r == str_lt(a@, b@),
{
    let x = str_chars(a);
    let y = str_chars(b);
    let mut i: usize = 0;
    assert(x@.skip(0) =~= x@);
    assert(y@.skip(0) =~= y@);
    while i < x.len() && i < y.len() && x[i] == y[i]
        invariant
            i <= x.len(),
            i <= y.len(),
            x@ == a@,
            y@ == b@,
            str_lt(a@, b@) == str_lt(x@.skip(i as int), y@.skip(i as int)),
        decreases x.len() - i,
    {
        assert(x@.skip(i as int).drop_first() =~= x@.skip(i + 1));
        assert(y@.skip(i as int).drop_first() =~= y@.skip(i + 1));
        i = i + 1;
    }
    if i == y.len() {
        false
    } else if i == x.len() {
        true
    } else {
        (x[i] as u32) < (y[i] as u32)
    }
}

/// `s` is in strictly increasing order.
pub open spec fn strictly_sorted(s: Seq<Seq<char>>) -> bool {
    forall|i: int, j: int| 0 <= i < j < s.len() ==> str_lt(#[trigger] s[i], #[trigger] s[j])
}

/// Adds `key` to the sorted list `v` unless it is there.
fn insert_sorted_unique(v: &mut Vec<String>, key: String)
    requires
        strictly_sorted(strs_view(old(v)@)),
    ensures
        strictly_sorted(strs_view(final(v)@)),
        strs_view(final(v)@).to_set() == strs_view(old(v)@).to_set().insert(key@),
{
    let ghost before = strs_view(v@);
    let mut p: usize = 0;
    while p < v.len() && string_less(v[p].as_str(), key.as_str())
        invariant
            p <= v.len(),
            before == strs_view(v@),
            forall|i: int| 0 <= i < p ==> str_lt(#[trigger] before[i], key@),
        decreases v.len() - p,
    {
        p = p + 1;
    }
    if p < v.len() && str_equal(v[p].as_str(), key.as_str()) {
        assert(before.to_set().insert(key@) =~= before.to_set()) by {
            assert(before.contains(before[p as int]));
        }
        return;
    }
    proof {
        if p < v.len() {
            lemma_str_lt_total(before[p as int], key@);
            assert forall|i: int| p <= i < before.len() implies str_lt(key@, #[trigger] before[i]) by {
                if i > p {
                    lemma_str_lt_transitive(key@, before[p as int], before[i]);
                }
            }
        }
    }
    v.insert(p, key);
    let ghost after = strs_view(v@);
    assert(after =~= before.insert(p as int, key@));
    assert forall|i: int, j: int| 0 <= i < j < after.len() implies str_lt(#[trigger] after[i], #[trigger] after[j]) by {
        if j < p {
        } else if j == p {
        } else if i < p {
            lemma_str_lt_transitive(after[i], key@, after[j]);
        } else if i == p {
        } else {
        }
    }
    assert(after.to_set() =~= before.to_set().insert(key@)) by {
        assert forall|x: Seq<char>| after.to_set().contains(x) implies before.to_set().insert(key@).contains(x) by {
            let i = choose|i: int| 0 <= i < after.len() && after[i] == x;
            if i < p {
                assert(before[i] == x);
            } else if i > p {
                assert(before[i - 1] == x);
            }
        }
        assert forall|x: Seq<char>| before.to_set().insert(key@).contains(x) implies after.to_set().contains(x) by {
            if x == key@ {
                assert(after[p as int] == x);
            } else {
                let i = choose|i: int| 0 <= i < before.len() && before[i] == x;
                if i < p {
                    assert(after[i] == x);
                } else {
                    assert(after[i + 1] == x);
                }
            }
        }
    }
}

/// The value that the first entry with key `k` holds.
pub open spec fn first_value(s: Seq<(String, String)>, k: Seq<char>) -> Option<Seq<char>>
    decreases s.len(),
{
    if s.len() == 0 {
        None
    } else if s[0].0@ == k {
        Some(s[0].1@)
    } else {
        first_value(s.drop_first(), k)
    }
}

/// The map that a list of entries stands for: each key to its first value.
pub open spec fn entries_map(s: Seq<(String, String)>) -> Map<Seq<char>, Seq<char>> {
    Map::new(|k: Seq<char>| first_value(s, k) is Some, |k: Seq<char>| first_value(s, k)->0)
}

/// Named values for a template.
pub struct TemplateValues {
    entries: Vec<(String, String)>,
}

impl View for TemplateValues {
    type V = Map<Seq<char>, Seq<char>>;

    closed spec fn view(&self) -> Map<Seq<char>, Seq<char>> {
        entries_map(self.entries@)
    }
}

impl TemplateValues {
    /// No values.
    pub fn new() -> (r: TemplateValues)
        ensures
            r@ == Map::<Seq<char>, Seq<char>>::empty(),
    {
        let r = TemplateValues { entries: Vec::new() };
        assert(r@ =~= Map::<Seq<char>, Seq<char>>::empty());
        r
    }

    /// Sets `key` to `value`.
    pub fn insert(&mut self, key: String, value: String)
        ensures
            final(self)@ == old(self)@.insert(key@, value@),
    {
        let ghost before = self.entries@;
        self.entries.insert(0, (key, value));
        assert(self.entries@.drop_first() =~= before);
        assert(self@ =~= entries_map(before).insert(key@, value@));
    }

    /// The value under `key`.
    pub fn get(&self, key: &str) -> (r: Option<&String>)
        ensures
            match r {
                Some(v) => self@.contains_key(key@) && self@[key@] == v@,
                None => !self@.contains_key(key@),
            },
    {
        let mut i: usize = 0;
        assert(self.entries@.skip(0) =~= self.entries@);
        while i < self.entries.len()
            invariant
                i <= self.entries.len(),
                first_value(self.entries@, key@) == first_value(self.entries@.skip(i as int), key@),
            decreases self.entries.len() - i,
        {
            assert(self.entries@.skip(i as int).drop_first() =~= self.entries@.skip(i + 1));
            if str_equal(self.entries[i].0.as_str(), key) {
                return Some(&self.entries[i].1);
            }
            i = i + 1;
        }
        None
    }
}

/// Whether `c` may stand in a placeholder's name.
pub open spec fn is_name_char(c: char) -> bool {
    ('A' <= c <= 'Z') || ('a' <= c <= 'z') || ('0' <= c <= '9') || c == '_'
}

/// The number of name characters in `t` from position `j`.
pub open spec fn name_len(t: Seq<char>, j: int) -> nat
    decreases t.len() - j,
{
    if 0 <= j < t.len() && is_name_char(t[j]) {
        1 + name_len(t, j + 1)
    } else {
        0
    }
}

/// The length of the name of the placeholder `${NAME}` that starts at `i` in
/// `t`; 0 when none starts there.
pub open spec fn placeholder_len(t: Seq<char>, i: int) -> nat {
    if 0 <= i && i + 1 < t.len() && t[i] == '$' && t[i + 1] == '{' {
        let n = name_len(t, i + 2);
        if n > 0 && i + 2 + n < t.len() && t[i + 2 + n] == '}' {
            n
        } else {
            0
        }
    } else {
        0
    }
}

/// `t` from position `i` with each placeholder scanned from the left replaced
/// by its value, and left as it is when it has none.
pub open spec fn rendered(t: Seq<char>, vals: Map<Seq<char>, Seq<char>>, i: int) -> Seq<char>
    decreases t.len() - i,
{
    if i < 0 || i >= t.len() {
        Seq::empty()
    } else {
        let n = placeholder_len(t, i);
        if n > 0 {
            let key = t.subrange(i + 2, i + 2 + n);
            (if vals.contains_key(key) {
                vals[key]
            } else {
                t.subrange(i, i + 3 + n)
            }) + rendered(t, vals, i + 3 + n)
        } else {
            seq![t[i]] + rendered(t, vals, i + 1)
        }
    }
}

/// The names of the placeholders from position `i` in `t` that have no value.
pub open spec fn missing_names(t: Seq<char>, vals: Map<Seq<char>, Seq<char>>, i: int) -> Set<Seq<char>>
    decreases t.len() - i,
{
    if i < 0 || i >= t.len() {
        Set::empty()
    } else {
        let n = placeholder_len(t, i);
        if n > 0 {
            let key = t.subrange(i + 2, i + 2 + n);
            let rest = missing_names(t, vals, i + 3 + n);
            if vals.contains_key(key) {
                rest
            } else {
                rest.insert(key)
            }
        } else {
            missing_names(t, vals, i + 1)
        }
    }
}

/// Whether `c` may stand in a placeholder's name.
fn is_name_char_exec(c: char) -> (r: bool)
    ensures
        r == is_name_char(c),
{
    ('A' <= c && c <= 'Z') || ('a' <= c && c <= 'z') || ('0' <= c && c <= '9') || c == '_'
}

/// The placeholder name length at `i` in `t` (see `placeholder_len`).
fn placeholder_len_at(t: &Vec<char>, i: usize) -> (r: usize)
    requires
        i < t.len(),
    ensures
        r == placeholder_len(t@, i as int),
        r > 0 ==> i + 3 + r <= t.len(),
{
    if i + 1 < t.len() && t[i] == '$' && t[i + 1] == '{' {
        let mut j = i + 2;
        while j < t.len() && is_name_char_exec(t[j])
            invariant
                i + 2 <= j <= t.len(),
                name_len(t@, i + 2) == (j - (i + 2)) + name_len(t@, j as int),
            decreases t.len() - j,
        {
            j = j + 1;
        }
        let n = j - (i + 2);
        if n > 0 && j < t.len() && t[j] == '}' {
            n
        } else {
            0
        }
    } else {
        0
    }
}

/// Fills the placeholders of `template` from `values`. Fails with the
/// names that have no value, sorted and each once.
pub fn substitute_template(template: &str, values: &TemplateValues) -> (r: Result<String, Vec<String>>)
    ensures
        match r {
            Ok(s) => missing_names(template@, values@, 0).is_empty() && s@ == rendered(
                template@,
                values@,
                0,
            ),
            Err(names) => !missing_names(template@, values@, 0).is_empty() && strictly_sorted(
                strs_view(names@),
            ) && strs_view(names@).to_set() == missing_names(template@, values@, 0),
        },
{
    let t = str_chars(template);
    let ghost tv = t@;
    let mut out = String::new();
    let mut missing: Vec<String> = Vec::new();
    let mut i: usize = 0;
    assert(strs_view(missing@).to_set() =~= Set::<Seq<char>>::empty());
    while i < t.len()
        invariant
            i <= t.len(),
            tv == t@,
            t@ == template@,
            rendered(tv, values@, 0) == out@ + rendered(tv, values@, i as int),
            missing_names(tv, values@, 0) == strs_view(missing@).to_set() + missing_names(
                tv,
                values@,
                i as int,
            ),
            strictly_sorted(strs_view(missing@)),
        decreases t.len() - i,
    {
        let n = placeholder_len_at(&t, i);
        if n > 0 {
            let key = chars_range_to_string(&t, i + 2, i + 2 + n);
            match values.get(key.as_str()) {
                Some(v) => {
                    append_str(&mut out, v.as_str());
                    assert(missing_names(tv, values@, i as int) == missing_names(tv, values@, (i + 3 + n) as int));
                },
                None => {
                    let ghost before = strs_view(missing@).to_set();
                    let lit = chars_range_to_string(&t, i, i + 3 + n);
                    append_str(&mut out, lit.as_str());
                    insert_sorted_unique(&mut missing, key);
                    assert(before + missing_names(tv, values@, i as int) =~= strs_view(missing@).to_set()
                        + missing_names(tv, values@, (i + 3 + n) as int));
                },
            }
            i = i + 3 + n;
        } else {
            out.push(t[i]);
            i = i + 1;
        }
    }
    assert(strs_view(missing@).to_set() + Set::<Seq<char>>::empty() =~= strs_view(missing@).to_set());
    if missing.len() == 0 {
        assert(strs_view(missing@).to_set() =~= Set::<Seq<char>>::empty());
        Ok(out)
    } else {
        assert(strs_view(missing@).to_set().contains(strs_view(missing@)[0]));
        Err(missing)
    }
}

/// A template with no placeholder renders to itself and misses nothing.
pub proof fn law_plain_template_kept(t: Seq<char>, vals: Map<Seq<char>, Seq<char>>, i: int)
    requires
        0 <= i <= t.len(),
        forall|j: int| 0 <= j < t.len() ==> placeholder_len(t, j) == 0,
    ensures
        rendered(t, vals, i) == t.skip(i),
        missing_names(t, vals, i).is_empty(),
    decreases t.len() - i,
{
    if i < t.len() {
        law_plain_template_kept(t, vals, i + 1);
        assert(t.skip(i) =~= seq![t[i]] + t.skip(i + 1));
    } else {
        assert(t.skip(i) =~= Seq::<char>::empty());
    }
}

/// The name characters from `j` run up to `end`, where a character that is
/// not one stands.
proof fn lemma_name_run(t: Seq<char>, j: int, end: int)
    requires
        0 <= j <= end < t.len(),
        forall|i: int| j <= i < end ==> is_name_char(#[trigger] t[i]),
        !is_name_char(t[end]),
    ensures
        name_len(t, j) == end - j,
    decreases end - j,
{
    if j < end {
        lemma_name_run(t, j + 1, end);
    }
}

/// A placeholder `${NAME}`, whose name is a non-empty run of the letters
/// `A`-`Z` and `a`-`z`, the digits `0`-`9` and `_`, is replaced by the value
/// of that name; without one it stays as it is and its name is the one
/// reported missing.
pub proof fn law_placeholder_filled(k: Seq<char>, vals: Map<Seq<char>, Seq<char>>)
    requires
        k.len() > 0,
        forall|i: int|
            0 <= i < k.len() ==> ('A' <= #[trigger] k[i] <= 'Z') || ('a' <= k[i] <= 'z') || ('0' <= k[i] <= '9')
                || k[i] == '_',
    ensures
        vals.contains_key(k) ==> rendered("${"@ + k + "}"@, vals, 0) == vals[k],
        !vals.contains_key(k) ==> rendered("${"@ + k + "}"@, vals, 0) == "${"@ + k + "}"@,
        missing_names("${"@ + k + "}"@, vals, 0) == (if vals.contains_key(k) {
            Set::<Seq<char>>::empty()
        } else {
            Set::<Seq<char>>::empty().insert(k)
        }),
{
    reveal_strlit("${");
    reveal_strlit("}");
    let t = "${"@ + k + "}"@;
    let n = k.len() as int;
    assert(t.len() == n + 3);
    assert(t[0] == '$' && t[1] == '{' && t[n + 2] == '}');
    assert forall|i: int| 2 <= i < n + 2 implies is_name_char(#[trigger] t[i]) by {
        assert(t[i] == k[i - 2]);
    }
    lemma_name_run(t, 2, n + 2);
    assert(placeholder_len(t, 0) == n);
    assert(t.subrange(2, 2 + n) =~= k);
    assert(t.subrange(0, 3 + n) =~= t);
    assert(rendered(t, vals, 3 + n) == Seq::<char>::empty());
    assert(missing_names(t, vals, 3 + n) == Set::<Seq<char>>::empty());
    if vals.contains_key(k) {
        assert(vals[k] + Seq::<char>::empty() =~= vals[k]);
    } else {
        assert(t + Seq::<char>::empty() =~= t);
    }
}

/// A `${...}` whose name holds a character other than the letters `A`-`Z`
/// and `a`-`z`, the digits `0`-`9` and `_` (the first such at `j0`) is no
/// placeholder: it stays as it is and nothing is reported missing.
pub proof fn law_non_name_left_alone(k: Seq<char>, j0: int, vals: Map<Seq<char>, Seq<char>>)
    requires
        0 <= j0 < k.len(),
        !(('A' <= k[j0] <= 'Z') || ('a' <= k[j0] <= 'z') || ('0' <= k[j0] <= '9') || k[j0] == '_'),
        forall|i: int|
            0 <= i < j0 ==> ('A' <= #[trigger] k[i] <= 'Z') || ('a' <= k[i] <= 'z') || ('0' <= k[i] <= '9') || k[i]
                == '_',
        !k.contains('{'),
        !k.contains('}'),
    ensures
        rendered("${"@ + k + "}"@, vals, 0) == "${"@ + k + "}"@,
        missing_names("${"@ + k + "}"@, vals, 0).is_empty(),
{
    reveal_strlit("${");
    reveal_strlit("}");
    let t = "${"@ + k + "}"@;
    let n = k.len() as int;
    assert(t.len() == n + 3);
    assert forall|i: int| 2 <= i < j0 + 2 implies is_name_char(#[trigger] t[i]) by {
        assert(t[i] == k[i - 2]);
    }
    assert(t[j0 + 2] == k[j0]);
    lemma_name_run(t, 2, j0 + 2);
    assert(k[j0] != '}') by {
        if k[j0] == '}' {
            assert(k.contains('}'));
        }
    }
    assert forall|j: int| 0 <= j < t.len() implies placeholder_len(t, j) == 0 by {
        if j >= 1 && j + 1 < t.len() {
            if j + 1 < n + 2 {
                assert(t[j + 1] == k[j - 1]);
                if k[j - 1] == '{' {
                    assert(k.contains('{'));
                }
            }
        }
    }
    law_plain_template_kept(t, vals, 0);
    assert(t.skip(0) =~= t);
}

/// The values built into every system prompt.
#[allow(non_snake_case)]
pub struct BuiltinSystemPromptArgs {
    pub KIMI_NOW: String,
    pub KIMI_WORK_DIR: String,
    pub KIMI_WORK_DIR_LS: String,
    pub KIMI_AGENTS_MD: String,
    pub KIMI_SKILLS: String,
}

impl BuiltinSystemPromptArgs {
    /// The built-in values by name.
    pub open spec fn values_map(&self) -> Map<Seq<char>, Seq<char>> {
        map![
            "KIMI_NOW"@ => self.KIMI_NOW@,
            "KIMI_WORK_DIR"@ => self.KIMI_WORK_DIR@,
            "KIMI_WORK_DIR_LS"@ => self.KIMI_WORK_DIR_LS@,
            "KIMI_AGENTS_MD"@ => self.KIMI_AGENTS_MD@,
            "KIMI_SKILLS"@ => self.KIMI_SKILLS@,
        ]
    }

    /// The built-in values as template values.
    pub fn as_map(&self) -> (r: TemplateValues)
        ensures
            r@ == self.values_map(),
            r@.contains_key("KIMI_NOW"@) && r@["KIMI_NOW"@] == self.KIMI_NOW@,
            r@.contains_key("KIMI_WORK_DIR"@) && r@["KIMI_WORK_DIR"@] == self.KIMI_WORK_DIR@,
            r@.contains_key("KIMI_WORK_DIR_LS"@) && r@["KIMI_WORK_DIR_LS"@] == self.KIMI_WORK_DIR_LS@,
            r@.contains_key("KIMI_AGENTS_MD"@) && r@["KIMI_AGENTS_MD"@] == self.KIMI_AGENTS_MD@,
            r@.contains_key("KIMI_SKILLS"@) && r@["KIMI_SKILLS"@] == self.KIMI_SKILLS@,
    {
        let mut m = TemplateValues::new();
        m.insert(string_of("KIMI_NOW"), self.KIMI_NOW.clone());
        m.insert(string_of("KIMI_WORK_DIR"), self.KIMI_WORK_DIR.clone());
        m.insert(string_of("KIMI_WORK_DIR_LS"), self.KIMI_WORK_DIR_LS.clone());
        m.insert(string_of("KIMI_AGENTS_MD"), self.KIMI_AGENTS_MD.clone());
        m.insert(string_of("KIMI_SKILLS"), self.KIMI_SKILLS.clone());
        assert(m@ =~= self.values_map());
        proof {
            law_builtin_values_by_name(*self);
        }
        m
    }
}

/// Each built-in value is found under its own name: `KIMI_NOW` gives the
/// time, `KIMI_WORK_DIR` the working directory, `KIMI_WORK_DIR_LS` its
/// listing, `KIMI_AGENTS_MD` the AGENTS.md text and `KIMI_SKILLS` the skills.
pub proof fn law_builtin_values_by_name(a: BuiltinSystemPromptArgs)
    ensures
        a.values_map().contains_key("KIMI_NOW"@) && a.values_map()["KIMI_NOW"@] == a.KIMI_NOW@,
        a.values_map().contains_key("KIMI_WORK_DIR"@) && a.values_map()["KIMI_WORK_DIR"@] == a.KIMI_WORK_DIR@,
        a.values_map().contains_key("KIMI_WORK_DIR_LS"@) && a.values_map()["KIMI_WORK_DIR_LS"@] == a.KIMI_WORK_DIR_LS@,
        a.values_map().contains_key("KIMI_AGENTS_MD"@) && a.values_map()["KIMI_AGENTS_MD"@] == a.KIMI_AGENTS_MD@,
        a.values_map().contains_key("KIMI_SKILLS"@) && a.values_map()["KIMI_SKILLS"@] == a.KIMI_SKILLS@,
{
    reveal_strlit("KIMI_NOW");
    reveal_strlit("KIMI_WORK_DIR");
    reveal_strlit("KIMI_WORK_DIR_LS");
    reveal_strlit("KIMI_AGENTS_MD");
    reveal_strlit("KIMI_SKILLS");
    assert("KIMI_NOW"@.len() == 8 && "KIMI_WORK_DIR"@.len() == 13 && "KIMI_WORK_DIR_LS"@.len() == 16);
    assert("KIMI_AGENTS_MD"@.len() == 14 && "KIMI_SKILLS"@.len() == 11);
}

/// A system prompt that is just the placeholder of a built-in value, with no
/// arguments from the agent's specification, renders to that value: the
/// AGENTS.md placeholder to the AGENTS.md text, the listing placeholder to
/// the listing, and so on.
pub proof fn law_builtin_placeholders_rendered(a: BuiltinSystemPromptArgs)
    ensures
        rendered("${KIMI_NOW}"@, with_args(a.values_map(), Seq::empty()), 0) == a.KIMI_NOW@,
        rendered("${KIMI_WORK_DIR}"@, with_args(a.values_map(), Seq::empty()), 0) == a.KIMI_WORK_DIR@,
        rendered("${KIMI_WORK_DIR_LS}"@, with_args(a.values_map(), Seq::empty()), 0) == a.KIMI_WORK_DIR_LS@,
        rendered("${KIMI_AGENTS_MD}"@, with_args(a.values_map(), Seq::empty()), 0) == a.KIMI_AGENTS_MD@,
        rendered("${KIMI_SKILLS}"@, with_args(a.values_map(), Seq::empty()), 0) == a.KIMI_SKILLS@,
{
    law_builtin_values_by_name(a);
    let vals = with_args(a.values_map(), Seq::empty());
    assert(vals == a.values_map());
    reveal_strlit("${");
    reveal_strlit("}");
    reveal_strlit("KIMI_NOW");
    reveal_strlit("KIMI_WORK_DIR");
    reveal_strlit("KIMI_WORK_DIR_LS");
    reveal_strlit("KIMI_AGENTS_MD");
    reveal_strlit("KIMI_SKILLS");
    reveal_strlit("${KIMI_NOW}");
    reveal_strlit("${KIMI_WORK_DIR}");
    reveal_strlit("${KIMI_WORK_DIR_LS}");
    reveal_strlit("${KIMI_AGENTS_MD}");
    reveal_strlit("${KIMI_SKILLS}");
    let names = seq!["KIMI_NOW"@, "KIMI_WORK_DIR"@, "KIMI_WORK_DIR_LS"@, "KIMI_AGENTS_MD"@, "KIMI_SKILLS"@];
    assert forall|n: int| 0 <= n < 5 implies #[trigger] names[n].len() > 0 && forall|i: int|
        0 <= i < names[n].len() ==> ('A' <= names[n][i] <= 'Z') || ('a' <= names[n][i] <= 'z') || ('0' <= names[n][i]
            <= '9') || names[n][i] == '_' by {}
    law_placeholder_filled(names[0], vals);
    law_placeholder_filled(names[1], vals);
    law_placeholder_filled(names[2], vals);
    law_placeholder_filled(names[3], vals);
    law_placeholder_filled(names[4], vals);
    assert("${KIMI_NOW}"@ =~= "${"@ + names[0] + "}"@);
    assert("${KIMI_WORK_DIR}"@ =~= "${"@ + names[1] + "}"@);
    assert("${KIMI_WORK_DIR_LS}"@ =~= "${"@ + names[2] + "}"@);
    assert("${KIMI_AGENTS_MD}"@ =~= "${"@ + names[3] + "}"@);
    assert("${KIMI_SKILLS}"@ =~= "${"@ + names[4] + "}"@);
}

/// `m` with the pairs `args` set in order, a later pair winning.
pub open spec fn with_args(m: Map<Seq<char>, Seq<char>>, args: Seq<(Seq<char>, Seq<char>)>) -> Map<
    Seq<char>,
    Seq<char>,
>
    decreases args.len(),
{
    if args.len() == 0 {
        m
    } else {
        with_args(m.insert(args[0].0, args[0].1), args.drop_first())
    }
}

/// The views of a list of string pairs.
pub open spec fn string_pairs_view(a: Seq<(String, String)>) -> Seq<(Seq<char>, Seq<char>)> {
    Seq::new(a.len(), |i: int| (a[i].0@, a[i].1@))
}

/// The values a system prompt is rendered with: the built-in ones, overridden
/// by the arguments of the agent's specification.
pub fn system_prompt_values(builtin: &BuiltinSystemPromptArgs, args: &Vec<(String, String)>) -> (r:
    TemplateValues)
    ensures
        r@ == with_args(builtin.values_map(), string_pairs_view(args@)),
{
    let mut values = builtin.as_map();
    let ghost av = string_pairs_view(args@);
    let mut i: usize = 0;
    assert(av.skip(0) =~= av);
    while i < args.len()
        invariant
            i <= args.len(),
            av == string_pairs_view(args@),
            with_args(builtin.values_map(), av) == with_args(values@, av.skip(i as int)),
        decreases args.len() - i,
    {
        assert(av.skip(i as int)[0] == av[i as int]);
        assert(av.skip(i as int).drop_first() =~= av.skip(i + 1));
        values.insert(args[i].0.clone(), args[i].1.clone());
        i = i + 1;
    }
    assert(av.skip(i as int) =~= Seq::<(Seq<char>, Seq<char>)>::empty());
    values
}

/// A system prompt that names values it was not given.
pub struct SystemPromptTemplateError {
    pub message: String,
}

/// The text of the error for a prompt at `path` that misses `names`.
pub open spec fn missing_args_message(path: Seq<char>, names: Seq<Seq<char>>) -> Seq<char> {
    "Missing system prompt arg in "@ + path + ": "@ + join(names, ", "@)
}

/// Renders the system prompt `text`, read from `path`: trimmed, with its
/// placeholders filled from `values`. Fails when some placeholder has no
/// value, naming the file and the missing names, sorted.
pub fn render_system_prompt(path: &str, text: &str, values: &TemplateValues) -> (r: Result<
    String,
    SystemPromptTemplateError,
>)
    ensures
        match r {
            Ok(s) => missing_names(trimmed(text@), values@, 0).is_empty() && s@ == rendered(
                trimmed(text@),
                values@,
                0,
            ),
            Err(e) => exists|names: Seq<Seq<char>>|
                #![trigger missing_args_message(path@, names)]
                strictly_sorted(names) && names.to_set() == missing_names(trimmed(text@), values@, 0)
                    && !names.to_set().is_empty() && e.message@ == missing_args_message(path@, names),
        },
{
    let cs = str_chars(text);
    let body = trim_prefix_to_string(&cs, cs.len());
    assert(cs@.take(cs.len() as int) =~= text@);
    match substitute_template(body.as_str(), values) {
        Ok(s) => Ok(s),
        Err(names) => {
            let ghost nv = strs_view(names@);
            let mut msg = string_of("Missing system prompt arg in ");
            append_str(&mut msg, path);
            append_str(&mut msg, ": ");
            let mut joined = String::new();
            let mut i: usize = 0;
            while i < names.len()
                invariant
                    i <= names.len(),
                    nv == strs_view(names@),
                    joined@ == join(nv.take(i as int), ", "@),
                decreases names.len() - i,
            {
                proof {
                    assert(nv.take(i + 1) =~= nv.take(i as int).push(nv[i as int]));
                    lemma_join_push(nv.take(i as int), nv[i as int], ", "@);
                }
                if i > 0 {
                    append_str(&mut joined, ", ");
                }
                append_str(&mut joined, names[i].as_str());
                i = i + 1;
            }
            assert(nv.take(names.len() as int) =~= nv);
            append_str(&mut msg, joined.as_str());
            assert(msg@ =~= missing_args_message(path@, nv));
            Err(SystemPromptTemplateError { message: msg })
        },
    }
}

} // verus!
