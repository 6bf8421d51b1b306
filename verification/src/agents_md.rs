//! Merging the AGENTS.md files found between a project's root and its
//! working directory into one text within a byte budget.
use vstd::prelude::*;
use crate::text::{
    append_str, byte_len, byte_len_at_most, byte_len_capped, char_width, char_width_of, join, lemma_byte_len_concat,
    lemma_byte_len_push, lemma_byte_len_single, lemma_byte_len_subrange, lemma_lead_ws_bound, lemma_trail_ws_bound,
    str_chars, string_of, trim_prefix_to_string, trimmed, lead_ws, trail_ws,
};

verus! {

/// The number of characters at the start of `s` whose UTF-8 encoding fits in
/// `limit` bytes.
pub open spec fn fit_len(s: Seq<char>, limit: nat) -> nat
    decreases s.len(),
{
    if s.len() > 0 && char_width(s[0]) <= limit {
        1 + fit_len(s.drop_first(), (limit - char_width(s[0])) as nat)
    } else {
        0
    }
}

/// `s` cut to at most `limit` bytes at a character boundary and trimmed; `s`
/// itself when it fits.
pub open spec fn truncated(s: Seq<char>, limit: nat) -> Seq<char> {
    if byte_len(s) <= limit {
        s
    } else {
        trimmed(s.take(fit_len(s, limit) as int))
    }
}

/// `fit_len` is the longest prefix that fits.
pub proof fn lemma_fit_len(s: Seq<char>, limit: nat)
    ensures
        fit_len(s, limit) <= s.len(),
        byte_len(s.take(fit_len(s, limit) as int)) <= limit,
        fit_len(s, limit) < s.len() ==> byte_len(s.take(fit_len(s, limit) + 1int)) > limit,
    decreases s.len(),
{
    if s.len() > 0 {
        let c = s[0];
        let t = s.drop_first();
        let n = fit_len(s, limit);
        if char_width(c) <= limit {
            let l2 = (limit - char_width(c)) as nat;
            lemma_fit_len(t, l2);
            assert(s.take(n as int) =~= seq![c] + t.take((n - 1) as int));
            lemma_byte_len_concat(seq![c], t.take((n - 1) as int));
            lemma_byte_len_single(c);
            if n < s.len() {
                assert(s.take(n + 1int) =~= seq![c] + t.take(n as int));
                lemma_byte_len_concat(seq![c], t.take(n as int));
            }
        } else {
            assert(s.take(0) =~= Seq::<char>::empty());
            assert(s.take(1) =~= seq![c]);
            lemma_byte_len_single(c);
        }
    } else {
        assert(s.take(0) =~= Seq::<char>::empty());
    }
}

/// A truncated text never takes more than the limit.
pub proof fn law_truncated_within_limit(s: Seq<char>, limit: nat)
    ensures
        byte_len(truncated(s, limit)) <= limit,
{
    if byte_len(s) > limit {
        let p = s.take(fit_len(s, limit) as int);
        lemma_fit_len(s, limit);
        lemma_lead_ws_bound(p);
        let t = p.skip(lead_ws(p) as int);
        lemma_trail_ws_bound(t);
        assert(trimmed(p) =~= p.subrange(lead_ws(p) as int, p.len() - trail_ws(t)));
        lemma_byte_len_subrange(p, lead_ws(p) as int, p.len() - trail_ws(t));
    }
}


/// Cuts `input` to at most `limit` bytes at a character boundary and trims
/// it; gives `input` unchanged when it fits.
pub fn truncate_utf8(input: &str, limit: usize) -> (r: String)
    ensures
        r@ == truncated(input@, limit as nat),
{
    if byte_len_at_most(input, limit) {
        return string_of(input);
    }
    let v = str_chars(input);
    let mut i: usize = 0;
    let mut used: usize = 0;
    assert(v@.skip(0) =~= v@);
    assert(v@.take(0) =~= Seq::<char>::empty());
    while i < v.len() && char_width_of(v[i]) <= limit - used
        invariant
            i <= v.len(),
            v@ == input@,
            used <= limit,
            used == byte_len(v@.take(i as int)),
            fit_len(v@, limit as nat) == i + fit_len(v@.skip(i as int), (limit - used) as nat),
        decreases v.len() - i,
    {
        proof {
            assert(v@.take(i + 1) == v@.take(i as int).push(v@[i as int]));
            lemma_byte_len_push(v@.take(i as int), v@[i as int]);
            assert(v@.skip(i as int).drop_first() =~= v@.skip(i + 1));
        }
        used = used + char_width_of(v[i]);
        i = i + 1;
    }
    trim_prefix_to_string(&v, i)
}

/// The byte budget for the merged AGENTS.md text.
pub const AGENTS_MD_MAX_BYTES: usize = 32768;

/// The line that names the file a piece of text comes from.
pub open spec fn annotation(path: Seq<char>) -> Seq<char> {
    "<!-- From: "@ + path + " -->\n"@
}

/// The line that names the file a piece of text comes from.
pub fn annotation_string(path: &str) -> (r: String)
    ensures
        r@ == annotation(path@),
{
    let mut s = string_of("<!-- From: ");
    append_str(&mut s, path);
    append_str(&mut s, " -->\n");
    s
}

/// The views of a list of (path, text) pairs.
pub open spec fn pairs_view(d: Seq<(String, String)>) -> Seq<(Seq<char>, Seq<char>)> {
    Seq::new(d.len(), |i: int| (d[i].0@, d[i].1@))
}

/// What an entry costs besides its text: its annotation, and the blank line
/// that separates it from the next entry.
pub open spec fn overhead(d: Seq<(Seq<char>, Seq<char>)>, k: int) -> nat {
    byte_len(annotation(d[k].0)) + (if k + 1 < d.len() {
        2nat
    } else {
        0nat
    })
}

/// The texts kept of the first `i` entries of `d` with `rem` bytes left once
/// the later entries have had theirs. Entries are budgeted from the last to
/// the first, so the files nearest the working directory win: each pays its
/// overhead, then keeps as much of its text as the budget holds; an entry
/// whose overhead the budget cannot pay keeps nothing and empties the budget.
pub open spec fn budgeted(d: Seq<(Seq<char>, Seq<char>)>, i: nat, rem: nat) -> Seq<Seq<char>>
    decreases i,
{
    if i == 0 || i > d.len() {
        Seq::empty()
    } else {
        let k = (i - 1) as int;
        let over = overhead(d, k);
        if rem <= over {
            budgeted(d, (i - 1) as nat, 0).push(Seq::empty())
        } else {
            let lim = truncated(d[k].1, (rem - over) as nat);
            budgeted(d, (i - 1) as nat, (rem - over - byte_len(lim)) as nat).push(lim)
        }
    }
}

/// The annotated pieces of the first `i` entries, leaving out empty texts.
pub open spec fn agents_parts(d: Seq<(Seq<char>, Seq<char>)>, c: Seq<Seq<char>>, i: nat) -> Seq<
    Seq<char>,
>
    decreases i,
{
    if i == 0 {
        Seq::empty()
    } else {
        let p = agents_parts(d, c, (i - 1) as nat);
        if c[i - 1].len() == 0 {
            p
        } else {
            p.push(annotation(d[i - 1].0) + c[i - 1])
        }
    }
}

/// The merged text of the AGENTS.md files `d` (paths and trimmed texts, from
/// the project root to the working directory): each kept text under its
/// annotation, separated by blank lines; none when nothing is kept.
pub open spec fn merged_agents_md(d: Seq<(Seq<char>, Seq<char>)>) -> Option<Seq<char>> {
    let c = budgeted(d, d.len(), AGENTS_MD_MAX_BYTES as nat);
    let p = agents_parts(d, c, d.len());
    if p.len() == 0 {
        None
    } else {
        Some(join(p, "\n\n"@))
    }
}

proof fn lemma_budgeted_len(d: Seq<(Seq<char>, Seq<char>)>, i: nat, rem: nat)
    requires
        i <= d.len(),
    ensures
        budgeted(d, i, rem).len() == i,
    decreases i,
{
    if i > 0 {
        let k = (i - 1) as int;
        let over = overhead(d, k);
        if rem <= over {
            lemma_budgeted_len(d, (i - 1) as nat, 0);
        } else {
            let lim = truncated(d[k].1, (rem - over) as nat);
            lemma_budgeted_len(d, (i - 1) as nat, (rem - over - byte_len(lim)) as nat);
        }
    }
}

/// What the kept texts among the first `i` of `c` cost, overheads included.
pub open spec fn charged(d: Seq<(Seq<char>, Seq<char>)>, c: Seq<Seq<char>>, i: nat) -> nat
    decreases i,
{
    if i == 0 {
        0
    } else {
        charged(d, c, (i - 1) as nat) + if c[i - 1].len() == 0 {
            0nat
        } else {
            overhead(d, i - 1) + byte_len(c[i - 1])
        }
    }
}

proof fn lemma_charged_prefix(d: Seq<(Seq<char>, Seq<char>)>, c1: Seq<Seq<char>>, c2: Seq<Seq<char>>, j: nat)
    requires
        j <= c1.len(),
        j <= c2.len(),
        forall|k: int| 0 <= k < j ==> c1[k] == c2[k],
    ensures
        charged(d, c1, j) == charged(d, c2, j),
        agents_parts(d, c1, j) == agents_parts(d, c2, j),
    decreases j,
{
    if j > 0 {
        lemma_charged_prefix(d, c1, c2, (j - 1) as nat);
    }
}

proof fn lemma_budget_respected(d: Seq<(Seq<char>, Seq<char>)>, i: nat, rem: nat)
    requires
        i <= d.len(),
    ensures
        charged(d, budgeted(d, i, rem), i) <= rem,
    decreases i,
{
    if i > 0 {
        let k = (i - 1) as int;
        let over = overhead(d, k);
        let c = budgeted(d, i, rem);
        lemma_budgeted_len(d, i, rem);
        if rem <= over {
            let c2 = budgeted(d, (i - 1) as nat, 0);
            lemma_budgeted_len(d, (i - 1) as nat, 0);
            lemma_budget_respected(d, (i - 1) as nat, 0);
            lemma_charged_prefix(d, c, c2, (i - 1) as nat);
        } else {
            let lim = truncated(d[k].1, (rem - over) as nat);
            law_truncated_within_limit(d[k].1, (rem - over) as nat);
            let r2 = (rem - over - byte_len(lim)) as nat;
            let c2 = budgeted(d, (i - 1) as nat, r2);
            lemma_budgeted_len(d, (i - 1) as nat, r2);
            lemma_budget_respected(d, (i - 1) as nat, r2);
            lemma_charged_prefix(d, c, c2, (i - 1) as nat);
        }
    }
}

proof fn lemma_join_len(p: Seq<Seq<char>>, x: Seq<char>)
    ensures
        byte_len(join(p.push(x), "\n\n"@)) == if p.len() == 0 {
            byte_len(x)
        } else {
            byte_len(join(p, "\n\n"@)) + 2 + byte_len(x)
        },
{
    crate::text::lemma_join_push(p, x, "\n\n"@);
    if p.len() > 0 {
        reveal_strlit("\n\n");
        lemma_byte_len_concat(join(p, "\n\n"@) + "\n\n"@, x);
        lemma_byte_len_concat(join(p, "\n\n"@), "\n\n"@);
        assert("\n\n"@ =~= seq!['\n'].push('\n'));
        lemma_byte_len_single('\n');
        lemma_byte_len_push(seq!['\n'], '\n');
    }
}

proof fn lemma_parts_within_charge(d: Seq<(Seq<char>, Seq<char>)>, c: Seq<Seq<char>>, i: nat)
    requires
        i <= d.len(),
        i <= c.len(),
    ensures
        byte_len(join(agents_parts(d, c, i), "\n\n"@)) <= charged(d, c, i),
        i < d.len() && agents_parts(d, c, i).len() > 0 ==> byte_len(join(agents_parts(d, c, i), "\n\n"@)) + 2
            <= charged(d, c, i),
    decreases i,
{
    if i > 0 {
        let k = (i - 1) as int;
        lemma_parts_within_charge(d, c, (i - 1) as nat);
        let p = agents_parts(d, c, (i - 1) as nat);
        if c[k].len() > 0 {
            let x = annotation(d[k].0) + c[k];
            lemma_join_len(p, x);
            lemma_byte_len_concat(annotation(d[k].0), c[k]);
        }
    }
}

/// The merged text never exceeds the byte budget.
pub proof fn law_merged_within_budget(d: Seq<(Seq<char>, Seq<char>)>)
    ensures
        merged_agents_md(d) matches Some(t) ==> byte_len(t) <= AGENTS_MD_MAX_BYTES,
{
    let c = budgeted(d, d.len(), AGENTS_MD_MAX_BYTES as nat);
    lemma_budgeted_len(d, d.len(), AGENTS_MD_MAX_BYTES as nat);
    lemma_budget_respected(d, d.len(), AGENTS_MD_MAX_BYTES as nat);
    lemma_parts_within_charge(d, c, d.len());
}

/// Merges the AGENTS.md texts `discovered` (paths and trimmed texts, from the
/// project root to the working directory) within the byte budget.
pub fn merge_agents_md(discovered: &Vec<(String, String)>) -> (r: Option<String>)
    ensures
        match r {
            Some(s) => merged_agents_md(pairs_view(discovered@)) == Some(s@),
            None => merged_agents_md(pairs_view(discovered@)) is None,
        },
{
    let ghost d = pairs_view(discovered@);
    let n = discovered.len();
    let ghost full = budgeted(d, n as nat, AGENTS_MD_MAX_BYTES as nat);
    proof {
        lemma_budgeted_len(d, n as nat, AGENTS_MD_MAX_BYTES as nat);
    }
    let mut kept: Vec<String> = Vec::new();
    let mut j: usize = 0;
    while j < n
        invariant
            j <= n,
            kept@.len() == j,
        decreases n - j,
    {
        kept.push(String::new());
        j = j + 1;
    }
    let mut rem: usize = AGENTS_MD_MAX_BYTES;
    let mut i: usize = n;
    while i > 0
        invariant
            i <= n == discovered.len(),
            d == pairs_view(discovered@),
            full == budgeted(d, n as nat, AGENTS_MD_MAX_BYTES as nat),
            full.len() == n,
            kept@.len() == n,
            rem <= AGENTS_MD_MAX_BYTES,
            budgeted(d, i as nat, rem as nat) == full.take(i as int),
            forall|k: int| i <= k < n ==> (#[trigger] kept@[k])@ == full[k],
        decreases i,
    {
        let k = i - 1;
        let ann = annotation_string(discovered[k].0.as_str());
        let sep: usize = if k + 1 < n {
            2
        } else {
            0
        };
        let ann_len = byte_len_capped(ann.as_str(), rem);
        let ghost over = overhead(d, k as int);
        let ghost b = budgeted(d, i as nat, rem as nat);
        assert(full[k as int] == b[k as int]);
        proof {
            lemma_budgeted_len(d, k as nat, 0);
        }
        if ann_len + sep >= rem {
            assert(budgeted(d, i as nat, rem as nat) == budgeted(d, k as nat, 0).push(Seq::empty()));
            assert(budgeted(d, k as nat, 0) =~= full.take(k as int)) by {
                assert(budgeted(d, i as nat, rem as nat).drop_last() == budgeted(d, k as nat, 0));
            }
            kept.set(k, String::new());
            rem = 0;
        } else {
            let room = rem - ann_len - sep;
            let lim = truncate_utf8(discovered[k].1.as_str(), room);
            proof {
                law_truncated_within_limit(d[k as int].1, room as nat);
            }
            let lim_len = byte_len_capped(lim.as_str(), room);
            let ghost next = budgeted(d, k as nat, (rem - over - byte_len(lim@)) as nat);
            assert(budgeted(d, i as nat, rem as nat) == next.push(lim@));
            assert(next =~= full.take(k as int)) by {
                assert(budgeted(d, i as nat, rem as nat).drop_last() == next);
            }
            kept.set(k, lim);
            rem = room - lim_len;
        }
        i = k;
    }
    assert(full.take(0) =~= Seq::<Seq<char>>::empty());
    let mut parts: Vec<String> = Vec::new();
    let mut m: usize = 0;
    while m < n
        invariant
            m <= n == discovered.len(),
            d == pairs_view(discovered@),
            full.len() == n,
            kept@.len() == n,
            forall|k: int| 0 <= k < n ==> (#[trigger] kept@[k])@ == full[k],
            parts@.len() == agents_parts(d, full, m as nat).len(),
            forall|q: int|
                0 <= q < parts@.len() ==> (#[trigger] parts@[q])@ == agents_parts(d, full, m as nat)[q],
        decreases n - m,
    {
        if !kept[m].as_str().is_empty() {
            let mut piece = annotation_string(discovered[m].0.as_str());
            append_str(&mut piece, kept[m].as_str());
            parts.push(piece);
        }
        m = m + 1;
    }
    if parts.len() == 0 {
        return None;
    }
    let mut out = String::new();
    let mut q: usize = 0;
    let ghost p = agents_parts(d, full, n as nat);
    while q < parts.len()
        invariant
            q <= parts@.len() == p.len(),
            forall|x: int| 0 <= x < parts@.len() ==> (#[trigger] parts@[x])@ == p[x],
            out@ == join(p.take(q as int), "\n\n"@),
        decreases parts.len() - q,
    {
        proof {
            assert(p.take(q + 1) =~= p.take(q as int).push(p[q as int]));
            crate::text::lemma_join_push(p.take(q as int), p[q as int], "\n\n"@);
        }
        if q > 0 {
            append_str(&mut out, "\n\n");
        }
        append_str(&mut out, parts[q].as_str());
        q = q + 1;
    }
    assert(p.take(p.len() as int) =~= p);
    Some(out)
}

} // verus!
