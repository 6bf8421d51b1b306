//! Character-level helpers on strings: access to the characters of a string,
//! building strings, white space, and UTF-8 byte lengths.
use vstd::prelude::*;

verus! {

/// `String::push` appends one character.
pub assume_specification[ std::string::String::push ](s: &mut std::string::String, ch: char)
    ensures
        final(s)@ == old(s)@.push(ch),
;

/// The characters of `s`.
pub fn str_chars(s: &str) -> (v: Vec<char>)
    ensures
        v@ == s@,
{
    let mut v: Vec<char> = Vec::new();
    for c in it: s.chars()
        invariant
            v@ == it.seq().take(it.index() as int),
    {
        v.push(c);
    }
    v
}

/// The string made of the characters of `v`.
pub fn chars_to_string(v: &Vec<char>) -> (s: String)
    ensures
        s@ == v@,
{
    let mut s = String::new();
    let mut i: usize = 0;
    while i < v.len()
        invariant
            i <= v.len(),
            s@ == v@.take(i as int),
        decreases v.len() - i,
    {
        s.push(v[i]);
        assert(v@.take(i + 1) == v@.take(i as int).push(v@[i as int]));
        i = i + 1;
    }
    assert(v@.take(v.len() as int) == v@);
    s
}

/// The string made of the characters `v[from..to]`.
pub fn chars_range_to_string(v: &Vec<char>, from: usize, to: usize) -> (s: String)
    requires
        from <= to <= v.len(),
    ensures
        s@ == v@.subrange(from as int, to as int),
{
    let mut s = String::new();
    let mut i: usize = from;
    while i < to
        invariant
            from <= i <= to <= v.len(),
            s@ == v@.subrange(from as int, i as int),
        decreases to - i,
    {
        s.push(v[i]);
        assert(v@.subrange(from as int, i + 1) == v@.subrange(from as int, i as int).push(v@[i as int]));
        i = i + 1;
    }
    s
}

/// A copy of `s`.
pub fn string_of(s: &str) -> (r: String)
    ensures
        r@ == s@,
{
    s.to_owned()
}

/// Appends the characters of `t` to `s`.
pub fn append_str(s: &mut String, t: &str)
    ensures
        final(s)@ == old(s)@ + t@,
{
    let cs = str_chars(t);
    let mut i: usize = 0;
    while i < cs.len()
        invariant
            i <= cs.len(),
            cs@ == t@,
            s@ == old(s)@ + t@.take(i as int),
        decreases cs.len() - i,
    {
        s.push(cs[i]);
        assert(t@.take(i + 1) == t@.take(i as int).push(t@[i as int]));
        i = i + 1;
    }
    assert(t@.take(cs.len() as int) == t@);
}

/// Whether two strings hold the same characters.
pub fn str_equal(a: &str, b: &str) -> (r: bool)
    ensures
        r == (a@ == b@),
{
    let x: String = a.to_owned();
    let y: String = b.to_owned();
    x == y
}

/// The characters that Unicode gives the White_Space property, which is what
/// `char::is_whitespace` tests.
pub open spec fn is_white(c: char) -> bool {
    let u = c as u32;
    ||| 0x09 <= u <= 0x0d
    ||| u == 0x20
    ||| u == 0x85
    ||| u == 0xa0
    ||| u == 0x1680
    ||| 0x2000 <= u <= 0x200a
    ||| u == 0x2028
    ||| u == 0x2029
    ||| u == 0x202f
    ||| u == 0x205f
    ||| u == 0x3000
}

/// Whether `c` is white space.
pub fn is_white_char(c: char) -> (r: bool)
    ensures
        r == is_white(c),
{
    let u = c as u32;
    (0x09 <= u && u <= 0x0d) || u == 0x20 || u == 0x85 || u == 0xa0 || u == 0x1680 || (0x2000 <= u
        && u <= 0x200a) || u == 0x2028 || u == 0x2029 || u == 0x202f || u == 0x205f || u == 0x3000
}

/// The number of bytes that UTF-8 spends on `c`.
pub open spec fn char_width(c: char) -> nat {
    let u = c as u32;
    if u < 0x80 {
        1
    } else if u < 0x800 {
        2
    } else if u < 0x10000 {
        3
    } else {
        4
    }
}

/// The length in bytes of the UTF-8 encoding of `s`.
pub open spec fn byte_len(s: Seq<char>) -> nat
    decreases s.len(),
{
    if s.len() == 0 {
        0
    } else {
        byte_len(s.drop_last()) + char_width(s.last())
    }
}

/// The number of bytes that UTF-8 spends on `c`.
pub fn char_width_of(c: char) -> (r: usize)
    ensures
        r == char_width(c),
{
    let u = c as u32;
    if u < 0x80 {
        1
    } else if u < 0x800 {
        2
    } else if u < 0x10000 {
        3
    } else {
        4
    }
}

pub proof fn lemma_byte_len_push(s: Seq<char>, c: char)
    ensures
        byte_len(s.push(c)) == byte_len(s) + char_width(c),
{
    assert(s.push(c).drop_last() == s);
}

pub proof fn lemma_byte_len_single(c: char)
    ensures
        byte_len(seq![c]) == char_width(c),
{
    assert(seq![c].drop_last() =~= Seq::<char>::empty());
    assert(seq![c].last() == c);
    assert(byte_len(Seq::<char>::empty()) == 0);
}

pub proof fn lemma_byte_len_concat(a: Seq<char>, b: Seq<char>)
    ensures
        byte_len(a + b) == byte_len(a) + byte_len(b),
    decreases b.len(),
{
    if b.len() == 0 {
        assert(a + b == a);
    } else {
        lemma_byte_len_concat(a, b.drop_last());
        assert((a + b).drop_last() == a + b.drop_last());
    }
}

pub proof fn lemma_byte_len_prefix(s: Seq<char>, i: int, j: int)
    requires
        0 <= i <= j <= s.len(),
    ensures
        byte_len(s.take(i)) <= byte_len(s.take(j)),
    decreases j - i,
{
    if i < j {
        lemma_byte_len_prefix(s, i, j - 1);
        assert(s.take(j) == s.take(j - 1).push(s[j - 1]));
        lemma_byte_len_push(s.take(j - 1), s[j - 1]);
    }
}

/// The length in bytes of `s`, or `cap` when that is smaller.
pub fn byte_len_capped(s: &str, cap: usize) -> (r: usize)
    ensures
        r == if byte_len(s@) <= cap {
            byte_len(s@)
        } else {
            cap as nat
        },
{
    let v = str_chars(s);
    let mut total: usize = 0;
    let mut i: usize = 0;
    while i < v.len()
        invariant
            i <= v.len(),
            v@ == s@,
            total == byte_len(v@.take(i as int)),
            total <= cap,
        decreases v.len() - i,
    {
        proof {
            assert(v@.take(i + 1) == v@.take(i as int).push(v@[i as int]));
            lemma_byte_len_push(v@.take(i as int), v@[i as int]);
        }
        let w = char_width_of(v[i]);
        if w > cap - total {
            proof {
                lemma_byte_len_prefix(v@, i + 1, v@.len() as int);
                assert(v@.take(v@.len() as int) == v@);
            }
            return cap;
        }
        total = total + w;
        i = i + 1;
    }
    assert(v@.take(v@.len() as int) == v@);
    total
}

/// Whether `s` takes at most `limit` bytes.
pub fn byte_len_at_most(s: &str, limit: usize) -> (r: bool)
    ensures
        r == (byte_len(s@) <= limit),
{
    let v = str_chars(s);
    let mut total: usize = 0;
    let mut i: usize = 0;
    while i < v.len()
        invariant
            i <= v.len(),
            v@ == s@,
            total == byte_len(v@.take(i as int)),
            total <= limit,
        decreases v.len() - i,
    {
        proof {
            assert(v@.take(i + 1) == v@.take(i as int).push(v@[i as int]));
            lemma_byte_len_push(v@.take(i as int), v@[i as int]);
        }
        let w = char_width_of(v[i]);
        if w > limit - total {
            proof {
                lemma_byte_len_prefix(v@, i + 1, v@.len() as int);
                assert(v@.take(v@.len() as int) == v@);
            }
            return false;
        }
        total = total + w;
        i = i + 1;
    }
    assert(v@.take(v@.len() as int) == v@);
    true
}

/// The byte length of a piece of `s` is at most that of `s`.
pub proof fn lemma_byte_len_subrange(s: Seq<char>, a: int, b: int)
    requires
        0 <= a <= b <= s.len(),
    ensures
        byte_len(s.subrange(a, b)) <= byte_len(s),
{
    assert(s =~= s.take(a) + s.subrange(a, b) + s.skip(b));
    lemma_byte_len_concat(s.take(a) + s.subrange(a, b), s.skip(b));
    lemma_byte_len_concat(s.take(a), s.subrange(a, b));
}

/// The number of white-space characters that `s` starts with.
pub open spec fn lead_ws(s: Seq<char>) -> nat
    decreases s.len(),
{
    if s.len() > 0 && is_white(s[0]) {
        1 + lead_ws(s.drop_first())
    } else {
        0
    }
}

/// The number of white-space characters that `s` ends with.
pub open spec fn trail_ws(s: Seq<char>) -> nat
    decreases s.len(),
{
    if s.len() > 0 && is_white(s.last()) {
        1 + trail_ws(s.drop_last())
    } else {
        0
    }
}

/// `s` without leading and trailing white space, as `str::trim` gives it.
pub open spec fn trimmed(s: Seq<char>) -> Seq<char> {
    let t = s.skip(lead_ws(s) as int);
    t.take(t.len() - trail_ws(t))
}

pub proof fn lemma_lead_ws_bound(s: Seq<char>)
    ensures
        lead_ws(s) <= s.len(),
        forall|i: int| 0 <= i < lead_ws(s) ==> is_white(#[trigger] s[i]),
        lead_ws(s) < s.len() ==> !is_white(s[lead_ws(s) as int]),
    decreases s.len(),
{
    if s.len() > 0 && is_white(s[0]) {
        lemma_lead_ws_bound(s.drop_first());
        assert forall|i: int| 0 <= i < lead_ws(s) implies is_white(#[trigger] s[i]) by {
            if i > 0 {
                assert(s[i] == s.drop_first()[i - 1]);
            }
        }
    }
}

pub proof fn lemma_trail_ws_bound(s: Seq<char>)
    ensures
        trail_ws(s) <= s.len(),
        forall|i: int| s.len() - trail_ws(s) <= i < s.len() ==> is_white(#[trigger] s[i]),
        trail_ws(s) < s.len() ==> !is_white(s[s.len() - trail_ws(s) - 1]),
    decreases s.len(),
{
    if s.len() > 0 && is_white(s.last()) {
        lemma_trail_ws_bound(s.drop_last());
        assert forall|i: int| s.len() - trail_ws(s) <= i < s.len() implies is_white(#[trigger] s[i]) by {
            if i < s.len() - 1 {
                assert(s[i] == s.drop_last()[i]);
            }
        }
        if trail_ws(s) < s.len() {
            assert(s[s.len() - trail_ws(s) - 1] == s.drop_last()[s.drop_last().len() - trail_ws(s.drop_last()) - 1]);
        }
    }
}

/// The number of white-space characters at the start of `v[from..to]`.
fn lead_ws_in(v: &Vec<char>, from: usize, to: usize) -> (r: usize)
    requires
        from <= to <= v.len(),
    ensures
        r == lead_ws(v@.subrange(from as int, to as int)),
{
    let mut i = from;
    while i < to && is_white_char(v[i])
        invariant
            from <= i <= to <= v.len(),
            lead_ws(v@.subrange(from as int, to as int)) == (i - from) + lead_ws(v@.subrange(i as int, to as int)),
        decreases to - i,
    {
        assert(v@.subrange(i as int, to as int).drop_first() =~= v@.subrange(i + 1, to as int));
        i = i + 1;
    }
    i - from
}

/// The number of white-space characters at the end of `v[from..to]`.
fn trail_ws_in(v: &Vec<char>, from: usize, to: usize) -> (r: usize)
    requires
        from <= to <= v.len(),
    ensures
        r == trail_ws(v@.subrange(from as int, to as int)),
{
    let mut j = to;
    while j > from && is_white_char(v[j - 1])
        invariant
            from <= j <= to <= v.len(),
            trail_ws(v@.subrange(from as int, to as int)) == (to - j) + trail_ws(v@.subrange(from as int, j as int)),
        decreases j - from,
    {
        assert(v@.subrange(from as int, j as int).drop_last() =~= v@.subrange(from as int, j - 1));
        j = j - 1;
    }
    to - j
}

/// The characters `v[..n]` without leading and trailing white space.
pub fn trim_prefix_to_string(v: &Vec<char>, n: usize) -> (r: String)
    requires
        n <= v.len(),
    ensures
        r@ == trimmed(v@.take(n as int)),
{
    let a = lead_ws_in(v, 0, n);
    proof {
        assert(v@.subrange(0, n as int) =~= v@.take(n as int));
        lemma_lead_ws_bound(v@.take(n as int));
    }
    let b = trail_ws_in(v, a, n);
    proof {
        let t = v@.take(n as int).skip(a as int);
        assert(t =~= v@.subrange(a as int, n as int));
        lemma_trail_ws_bound(t);
        assert(t.take(t.len() - trail_ws(t)) =~= v@.subrange(a as int, n - b));
    }
    chars_range_to_string(v, a, n - b)
}

/// `words` joined with `sep` between each two.
pub open spec fn join(words: Seq<Seq<char>>, sep: Seq<char>) -> Seq<char>
    decreases words.len(),
{
    if words.len() == 0 {
        Seq::empty()
    } else if words.len() == 1 {
        words[0]
    } else {
        join(words.drop_last(), sep) + sep + words.last()
    }
}

pub proof fn lemma_join_push(words: Seq<Seq<char>>, w: Seq<char>, sep: Seq<char>)
    ensures
        join(words.push(w), sep) == if words.len() == 0 {
            w
        } else {
            join(words, sep) + sep + w
        },
{
    assert(words.push(w).drop_last() == words);
}

/// The number of characters before the first white space of `s`.
pub open spec fn word_len(s: Seq<char>) -> nat
    decreases s.len(),
{
    if s.len() > 0 && !is_white(s[0]) {
        1 + word_len(s.drop_first())
    } else {
        0
    }
}

pub proof fn lemma_word_len_bound(s: Seq<char>)
    ensures
        word_len(s) <= s.len(),
        s.len() > 0 && !is_white(s[0]) ==> word_len(s) > 0,
    decreases s.len(),
{
    if s.len() > 0 && !is_white(s[0]) {
        lemma_word_len_bound(s.drop_first());
    }
}

/// The white-space separated words of `s`, as `str::split_whitespace`
/// gives them.
pub open spec fn words(s: Seq<char>) -> Seq<Seq<char>>
    decreases s.len(),
{
    let t = s.skip(lead_ws(s) as int);
    if t.len() == 0 {
        Seq::empty()
    } else {
        let n = word_len(t);
        proof {
            lemma_lead_ws_bound(s);
            lemma_word_len_bound(t);
        }
        if n == 0 {
            Seq::empty()
        } else {
            seq![t.take(n as int)] + words(t.skip(n as int))
        }
    }
}

/// `s` with its runs of white space made single spaces and its ends trimmed.
pub open spec fn collapsed(s: Seq<char>) -> Seq<char> {
    join(words(s), seq![' '])
}

/// The number of characters before the first white space of `v[from..]`.
fn word_len_in(v: &Vec<char>, from: usize) -> (r: usize)
    requires
        from <= v.len(),
    ensures
        r == word_len(v@.skip(from as int)),
{
    let mut i = from;
    while i < v.len() && !is_white_char(v[i])
        invariant
            from <= i <= v.len(),
            word_len(v@.skip(from as int)) == (i - from) + word_len(v@.skip(i as int)),
        decreases v.len() - i,
    {
        assert(v@.skip(i as int).drop_first() =~= v@.skip(i + 1));
        i = i + 1;
    }
    i - from
}

/// The words of `s` joined by single spaces.
pub fn collapse_whitespace(s: &str) -> (r: Vec<char>)
    ensures
        r@ == collapsed(s@),
{
    let v = str_chars(s);
    let mut out: Vec<char> = Vec::new();
    let ghost mut done: Seq<Seq<char>> = Seq::empty();
    let mut any = false;
    let mut i: usize = 0;
    assert(v@.skip(0) =~= v@);
    while i < v.len()
        invariant
            i <= v.len(),
            v@ == s@,
            words(s@) == done + words(v@.skip(i as int)),
            out@ == join(done, seq![' ']),
            any == (done.len() > 0),
        decreases v.len() - i,
    {
        let a = lead_ws_in(&v, i, v.len());
        proof {
            assert(v@.subrange(i as int, v.len() as int) =~= v@.skip(i as int));
            lemma_lead_ws_bound(v@.skip(i as int));
            assert(v@.skip(i as int).skip(a as int) =~= v@.skip(i + a));
        }
        let start = i + a;
        if start == v.len() {
            assert(v@.skip(start as int).len() == 0);
            assert(words(v@.skip(i as int)) == Seq::<Seq<char>>::empty());
            assert(done + Seq::<Seq<char>>::empty() =~= done);
            i = start;
        } else {
            let n = word_len_in(&v, start);
            proof {
                lemma_word_len_bound(v@.skip(start as int));
                assert(v@.skip(start as int).skip(n as int) =~= v@.skip(start + n));
            }
            let ghost w = v@.skip(start as int).take(n as int);
            if any {
                out.push(' ');
            }
            let mut k = start;
            while k < start + n
                invariant
                    start <= k <= start + n <= v.len(),
                    out@ == (if done.len() == 0 {
                        Seq::empty()
                    } else {
                        join(done, seq![' ']) + seq![' ']
                    }) + v@.subrange(start as int, k as int),
                decreases start + n - k,
            {
                out.push(v[k]);
                assert(v@.subrange(start as int, k + 1) =~= v@.subrange(start as int, k as int).push(v@[k as int]));
                k = k + 1;
            }
            proof {
                assert(w =~= v@.subrange(start as int, (start + n) as int));
                lemma_join_push(done, w, seq![' ']);
                assert(words(v@.skip(i as int)) =~= seq![w] + words(v@.skip(start + n)));
                done = done.push(w);
            }
            any = true;
            i = start + n;
        }
    }
    assert(v@.skip(i as int).len() == 0);
    out
}

/// The digit that stands for `d`, below ten.
pub open spec fn digit_char(d: nat) -> char {
    "0123456789"@[d as int]
}

/// The decimal digits of `n`, most significant first.
pub open spec fn decimal(n: nat) -> Seq<char>
    decreases n,
{
    if n < 10 {
        seq![digit_char(n)]
    } else {
        decimal(n / 10).push(digit_char(n % 10))
    }
}

/// The decimal digits of `n`.
pub fn decimal_string(n: u128) -> (r: String)
    ensures
        r@ == decimal(n as nat),
{
    let digits = str_chars("0123456789");
    proof {
        reveal_strlit("0123456789");
    }
    let mut out: Vec<char> = Vec::new();
    let mut m: u128 = n;
    loop
        invariant
            digits@ == "0123456789"@,
            "0123456789"@.len() == 10,
            decimal(n as nat) == decimal(m as nat) + out@,
        decreases m,
    {
        let d = (m % 10) as usize;
        let c = digits[d];
        if m < 10 {
            let ghost before = out@;
            out.insert(0, c);
            assert(out@ =~= seq![c] + before);
            assert(decimal(m as nat) == seq![digit_char(m as nat)]);
            return chars_to_string(&out);
        }
        let ghost before = out@;
        out.insert(0, c);
        assert(decimal(m as nat) == decimal((m / 10) as nat).push(digit_char((m % 10) as nat)));
        assert(decimal((m / 10) as nat) + out@ =~= decimal((m / 10) as nat).push(c) + before);
        m = m / 10;
    }
}

/// The views of a list of strings.
pub open spec fn strs_view(s: Seq<String>) -> Seq<Seq<char>> {
    Seq::new(s.len(), |i: int| s[i]@)
}

/// The pieces of `s` between the separators `c`, scanning from position `j`
/// with the current piece starting at `start`.
pub open spec fn split_from(s: Seq<char>, c: char, start: int, j: int) -> Seq<Seq<char>>
    decreases s.len() - j,
{
    if j >= s.len() {
        seq![s.subrange(start, s.len() as int)]
    } else if s[j] == c {
        seq![s.subrange(start, j)] + split_from(s, c, j + 1, j + 1)
    } else {
        split_from(s, c, start, j + 1)
    }
}

/// The pieces of `s` between the separators `c`, as `str::split` gives them.
pub open spec fn split_on(s: Seq<char>, c: char) -> Seq<Seq<char>> {
    split_from(s, c, 0, 0)
}

/// The pieces of `t` between the separators `c`.
pub fn split_chars(t: &Vec<char>, c: char) -> (parts: Vec<String>)
    ensures
        strs_view(parts@) == split_on(t@, c),
{
    let mut parts: Vec<String> = Vec::new();
    let mut start: usize = 0;
    let mut j: usize = 0;
    while j < t.len()
        invariant
            start <= j <= t.len(),
            strs_view(parts@) + split_from(t@, c, start as int, j as int) == split_on(t@, c),
        decreases t.len() - j,
    {
        if t[j] == c {
            let piece = chars_range_to_string(t, start, j);
            let ghost before = strs_view(parts@);
            parts.push(piece);
            assert(strs_view(parts@) =~= before.push(t@.subrange(start as int, j as int)));
            assert(before + split_from(t@, c, start as int, j as int) =~= strs_view(parts@)
                + split_from(t@, c, j + 1, j + 1));
            start = j + 1;
        }
        j = j + 1;
    }
    let piece = chars_range_to_string(t, start, j);
    let ghost before = strs_view(parts@);
    parts.push(piece);
    assert(strs_view(parts@) =~= before.push(t@.subrange(start as int, j as int)));
    parts
}

/// Splitting `a`, a separator and `b` from a position within `a` gives the
/// pieces of `a` from there, then those after the separator.
proof fn lemma_split_from_joined(a: Seq<char>, b: Seq<char>, c: char, start: int, j: int)
    requires
        0 <= start <= j <= a.len(),
    ensures
        split_from(a + seq![c] + b, c, start, j) == split_from(a, c, start, j) + split_from(
            a + seq![c] + b,
            c,
            a.len() + 1int,
            a.len() + 1int,
        ),
    decreases a.len() - j,
{
    let s = a + seq![c] + b;
    if j == a.len() {
        assert(s[j] == c);
        assert(s.subrange(start, j) =~= a.subrange(start, a.len() as int));
    } else {
        assert(s[j] == a[j]);
        if a[j] == c {
            assert(s.subrange(start, j) =~= a.subrange(start, j));
            lemma_split_from_joined(a, b, c, j + 1, j + 1);
            assert(seq![a.subrange(start, j)] + split_from(a, c, j + 1, j + 1) + split_from(s, c, a.len() + 1int, a.len()
                + 1int) =~= seq![a.subrange(start, j)] + (split_from(a, c, j + 1, j + 1) + split_from(
                s,
                c,
                a.len() + 1int,
                a.len() + 1int,
            )));
        } else {
            lemma_split_from_joined(a, b, c, start, j + 1);
        }
    }
}

/// Splitting `p + b` past `p` splits `b`.
proof fn lemma_split_from_shift(p: Seq<char>, b: Seq<char>, c: char, start: int, j: int)
    requires
        0 <= start <= j <= b.len(),
    ensures
        split_from(p + b, c, p.len() + start, p.len() + j) == split_from(b, c, start, j),
    decreases b.len() - j,
{
    let s = p + b;
    let o = p.len() as int;
    if j == b.len() {
        assert(s.subrange(o + start, s.len() as int) =~= b.subrange(start, b.len() as int));
    } else {
        assert(s[o + j] == b[j]);
        if b[j] == c {
            assert(s.subrange(o + start, o + j) =~= b.subrange(start, j));
            lemma_split_from_shift(p, b, c, j + 1, j + 1);
        } else {
            lemma_split_from_shift(p, b, c, start, j + 1);
        }
    }
}

/// The pieces of `a`, a separator and `b` are those of `a`, then those of
/// `b`.
pub proof fn lemma_split_joined(a: Seq<char>, b: Seq<char>, c: char)
    ensures
        split_on(a + seq![c] + b, c) == split_on(a, c) + split_on(b, c),
{
    lemma_split_from_joined(a, b, c, 0, 0);
    lemma_split_from_shift(a + seq![c], b, c, 0, 0);
    assert(a + seq![c] + b == (a + seq![c]) + b);
}

/// Text without the separator is one piece.
pub proof fn lemma_split_single(a: Seq<char>, c: char)
    requires
        !a.contains(c),
    ensures
        split_on(a, c) == seq![a],
{
    lemma_split_single_from(a, c, 0);
}

proof fn lemma_split_single_from(a: Seq<char>, c: char, j: int)
    requires
        !a.contains(c),
        0 <= j <= a.len(),
    ensures
        split_from(a, c, 0, j) == seq![a],
    decreases a.len() - j,
{
    if j == a.len() {
        assert(a.subrange(0, a.len() as int) =~= a);
    } else {
        if a[j] == c {
            assert(a.contains(c));
        }
        lemma_split_single_from(a, c, j + 1);
    }
}

} // verus!
