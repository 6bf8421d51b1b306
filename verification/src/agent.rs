//! What an agent is built from: the directories searched for AGENTS.md, the
//! files read there, the listing of skills, and the tools it keeps.
use vstd::prelude::*;
use crate::paths::{join_path, joined, parent_of, path_parent, paths_equal, same_path};
use crate::text::{
    append_str, join, lemma_join_push, str_chars, str_equal, string_of, strs_view, trim_prefix_to_string, trimmed,
};

verus! {

/// The directories from `cur` up through its parents, stopping at the first
/// that is the same path as `root` (component by component), or at a path
/// without a parent.
pub open spec fn up_chain(cur: Seq<char>, root: Option<Seq<char>>) -> Seq<Seq<char>>
    decreases cur.len(),
{
    if root matches Some(r) && same_path(cur, r) {
        seq![cur]
    } else {
        match parent_of(cur) {
            Some(p) => if !same_path(p, cur) && p.len() < cur.len() {
                seq![cur] + up_chain(p, root)
            } else {
                seq![cur]
            },
            None => seq![cur],
        }
    }
}

/// The chain starts at `cur`, and once it meets a path that is the same as
/// `root` it goes no further: the directories read for AGENTS.md run from
/// the project root (when it lies above) down to the working directory.
pub proof fn law_up_chain_bounds(cur: Seq<char>, root: Option<Seq<char>>)
    ensures
        up_chain(cur, root).len() >= 1,
        up_chain(cur, root)[0] == cur,
        forall|r: Seq<char>, i: int|
            root == Some(r) && 0 <= i < up_chain(cur, root).len() - 1 ==> !#[trigger] same_path(
                up_chain(cur, root)[i],
                r,
            ),
    decreases cur.len(),
{
    if !(root matches Some(r) && same_path(cur, r)) {
        match parent_of(cur) {
            Some(p) => if !same_path(p, cur) && p.len() < cur.len() {
                law_up_chain_bounds(p, root);
                let rest = up_chain(p, root);
                let whole = up_chain(cur, root);
                assert(whole == seq![cur] + rest);
                assert forall|r: Seq<char>, i: int|
                    root == Some(r) && 0 <= i < whole.len() - 1 implies !#[trigger] same_path(whole[i], r) by {
                    if i > 0 {
                        assert(whole[i] == rest[i - 1]);
                    }
                }
            },
            None => {},
        }
    }
}

/// The directories from `cur` up through its parents (see `up_chain`).
fn up_chain_exec(cur: &str, root: Option<&str>) -> (r: Vec<String>)
    ensures
        strs_view(r@) == up_chain(cur@, match root {
            Some(x) => Some(x@),
            None => None,
        }),
{
    let ghost rv = match root {
        Some(x) => Some(x@),
        None => None,
    };
    let mut out: Vec<String> = Vec::new();
    let mut current = string_of(cur);
    loop
        invariant
            rv == match root {
                Some(x) => Some(x@),
                None => None::<Seq<char>>,
            },
            strs_view(out@) + up_chain(current@, rv) == up_chain(cur@, rv),
        decreases current@.len(),
    {
        let ghost before = strs_view(out@);
        let ghost c = current@;
        let at_root = match root {
            Some(x) => paths_equal(current.as_str(), x),
            None => false,
        };
        if at_root {
            out.push(current);
            assert(up_chain(c, rv) == seq![c]);
            assert(strs_view(out@) =~= before + seq![c]);
            return out;
        }
        assert(!(rv matches Some(r) && same_path(c, r)));
        match path_parent(current.as_str()) {
            Some(p) => {
                if paths_equal(p.as_str(), current.as_str()) {
                    out.push(current);
                    assert(strs_view(out@) =~= before + seq![c]);
                    return out;
                }
                out.push(current);
                assert(up_chain(c, rv) == seq![c] + up_chain(p@, rv));
                assert(strs_view(out@) =~= before + seq![c]);
                assert(before + up_chain(c, rv) =~= strs_view(out@) + up_chain(p@, rv));
                current = p;
            },
            None => {
                out.push(current);
                assert(strs_view(out@) =~= before + seq![c]);
                return out;
            },
        }
    }
}

/// Reversing a sequence with one more item in front puts that item last.
proof fn lemma_reverse_cons<A>(x: A, t: Seq<A>)
    ensures
        (seq![x] + t).reverse() == t.reverse().push(x),
{
    assert((seq![x] + t).reverse() =~= t.reverse().push(x));
}

/// The directories from `project_root` down to `work_dir`, when
/// `project_root` lies above it; otherwise from the topmost parent of
/// `work_dir` down to it.
pub fn dirs_root_to_leaf(work_dir: &str, project_root: &str) -> (r: Vec<String>)
    ensures
        strs_view(r@) == up_chain(work_dir@, Some(project_root@)).reverse(),
{
    let up = up_chain_exec(work_dir, Some(project_root));
    let mut out: Vec<String> = Vec::new();
    let mut i = up.len();
    while i > 0
        invariant
            i <= up.len(),
            strs_view(out@) == strs_view(up@).skip(i as int).reverse(),
        decreases i,
    {
        let ghost before = strs_view(out@);
        let ghost s = strs_view(up@);
        out.push(up[i - 1].clone());
        proof {
            assert(s.skip(i - 1) =~= seq![s[i - 1]] + s.skip(i as int));
            lemma_reverse_cons(s[i - 1], s.skip(i as int));
            assert(strs_view(out@) =~= before.push(s[i - 1]));
        }
        i = i - 1;
    }
    assert(strs_view(up@).skip(0) =~= strs_view(up@));
    out
}

/// `work_dir` and each of its parents in turn.
pub fn ancestor_dirs(work_dir: &str) -> (r: Vec<String>)
    ensures
        strs_view(r@) == up_chain(work_dir@, None),
{
    up_chain_exec(work_dir, None)
}

/// The project root among `ancestors` (`work_dir` and its parents, each
/// with whether it holds `.git`): the nearest that holds `.git`, or
/// `work_dir` when none does.
pub open spec fn project_root_of(work_dir: Seq<char>, ancestors: Seq<Seq<char>>, has_git: Seq<bool>) -> Seq<char>
    decreases ancestors.len(),
{
    if ancestors.len() == 0 || has_git.len() == 0 {
        work_dir
    } else if has_git[0] {
        ancestors[0]
    } else {
        project_root_of(work_dir, ancestors.drop_first(), has_git.drop_first())
    }
}

/// The project root (see `project_root_of`).
pub fn pick_project_root(work_dir: &str, ancestors: &Vec<String>, has_git: &Vec<bool>) -> (r: String)
    ensures
        r@ == project_root_of(work_dir@, strs_view(ancestors@), has_git@),
{
    let ghost av = strs_view(ancestors@);
    let mut i: usize = 0;
    assert(av.skip(0) =~= av);
    assert(has_git@.skip(0) =~= has_git@);
    while i < ancestors.len() && i < has_git.len()
        invariant
            i <= ancestors.len(),
            i <= has_git.len(),
            av == strs_view(ancestors@),
            project_root_of(work_dir@, av, has_git@) == project_root_of(work_dir@, av.skip(i as int), has_git@.skip(i as int)),
        decreases ancestors.len() - i,
    {
        assert(av.skip(i as int)[0] == ancestors@[i as int]@);
        assert(has_git@.skip(i as int)[0] == has_git@[i as int]);
        assert(av.skip(i as int).drop_first() =~= av.skip(i + 1));
        assert(has_git@.skip(i as int).drop_first() =~= has_git@.skip(i + 1));
        if has_git[i] {
            return ancestors[i].clone();
        }
        i = i + 1;
    }
    assert(av.skip(i as int).len() == 0 || has_git@.skip(i as int).len() == 0);
    string_of(work_dir)
}

/// Where AGENTS.md may stand in `dir`: under `.kimi`, then at the top as
/// `AGENTS.md` or `agents.md`.
pub fn agents_md_paths(dir: &str) -> (r: (String, String, String))
    ensures
        r.0@ == joined(joined(dir@, ".kimi"@), "AGENTS.md"@),
        r.1@ == joined(dir@, "AGENTS.md"@),
        r.2@ == joined(dir@, "agents.md"@),
{
    let kimi_dir = join_path(dir, ".kimi");
    (join_path(kimi_dir.as_str(), "AGENTS.md"), join_path(dir, "AGENTS.md"), join_path(dir, "agents.md"))
}

/// The AGENTS.md files to read in `dir`, given which of its places hold a
/// file: the one under `.kimi`, then `AGENTS.md`, or else `agents.md`.
pub open spec fn agents_md_choice(dir: Seq<char>, kimi_is_file: bool, upper_is_file: bool, lower_is_file: bool) -> Seq<Seq<char>> {
    (if kimi_is_file {
        seq![joined(joined(dir, ".kimi"@), "AGENTS.md"@)]
    } else {
        Seq::empty()
    }) + (if upper_is_file {
        seq![joined(dir, "AGENTS.md"@)]
    } else if lower_is_file {
        seq![joined(dir, "agents.md"@)]
    } else {
        Seq::empty()
    })
}

/// The AGENTS.md files to read in `dir` (see `agents_md_choice`).
pub fn agents_md_candidates(dir: &str, kimi_is_file: bool, upper_is_file: bool, lower_is_file: bool) -> (r: Vec<String>)
    ensures
        strs_view(r@) == agents_md_choice(dir@, kimi_is_file, upper_is_file, lower_is_file),
{
    let (kimi, upper, lower) = agents_md_paths(dir);
    let mut out: Vec<String> = Vec::new();
    if kimi_is_file {
        out.push(kimi);
    }
    if upper_is_file {
        out.push(upper);
    } else if lower_is_file {
        out.push(lower);
    }
    assert(strs_view(out@) =~= agents_md_choice(dir@, kimi_is_file, upper_is_file, lower_is_file));
    out
}

/// The AGENTS.md texts worth keeping: each text that could be read, trimmed,
/// unless nothing is left of it.
pub open spec fn kept_agents_md(read: Seq<(Seq<char>, Option<Seq<char>>)>) -> Seq<(Seq<char>, Seq<char>)>
    decreases read.len(),
{
    if read.len() == 0 {
        Seq::empty()
    } else {
        let rest = kept_agents_md(read.drop_last());
        match read.last().1 {
            Some(t) => if trimmed(t).len() > 0 {
                rest.push((read.last().0, trimmed(t)))
            } else {
                rest
            },
            None => rest,
        }
    }
}

/// The views of a list of (path, text that could or could not be read).
pub open spec fn read_view(r: Seq<(String, Option<String>)>) -> Seq<(Seq<char>, Option<Seq<char>>)> {
    Seq::new(r.len(), |i: int| (r[i].0@, match r[i].1 {
        Some(t) => Some(t@),
        None => None,
    }))
}

/// The AGENTS.md texts worth keeping (see `kept_agents_md`).
pub fn collect_agents_md(read: &Vec<(String, Option<String>)>) -> (r: Vec<(String, String)>)
    ensures
        crate::agents_md::pairs_view(r@) == kept_agents_md(read_view(read@)),
{
    let ghost rv = read_view(read@);
    let mut out: Vec<(String, String)> = Vec::new();
    let mut i: usize = 0;
    while i < read.len()
        invariant
            i <= read.len(),
            rv == read_view(read@),
            crate::agents_md::pairs_view(out@) == kept_agents_md(rv.take(i as int)),
        decreases read.len() - i,
    {
        assert(rv.take(i + 1).drop_last() =~= rv.take(i as int));
        assert(rv.take(i + 1).last() == rv[i as int]);
        match &read[i].1 {
            Some(t) => {
                let cs = str_chars(t.as_str());
                let content = trim_prefix_to_string(&cs, cs.len());
                assert(cs@.take(cs.len() as int) =~= t@);
                if !content.as_str().is_empty() {
                    let ghost before = crate::agents_md::pairs_view(out@);
                    out.push((read[i].0.clone(), content));
                    assert(crate::agents_md::pairs_view(out@) =~= before.push((read@[i as int].0@, trimmed(t@))));
                }
            },
            None => {},
        }
        i = i + 1;
    }
    assert(rv.take(read.len() as int) =~= rv);
    out
}

/// A skill, as the system prompt lists it.
pub struct SkillSummary {
    pub name: String,
    /// The path of the skill's SKILL.md.
    pub path: String,
    pub description: String,
}

/// The listing line of a skill.
pub open spec fn skill_line(s: SkillSummary) -> Seq<char> {
    "- "@ + s.name@ + "\n  - Path: "@ + s.path@ + "\n  - Description: "@ + s.description@
}

/// The listing of skills for the system prompt: a line per skill, or a note
/// that there is none.
pub open spec fn skills_listing(skills: Seq<SkillSummary>) -> Seq<char> {
    if skills.len() == 0 {
        "No skills found."@
    } else {
        join(Seq::new(skills.len(), |i: int| skill_line(skills[i])), "\n"@)
    }
}

/// The listing of skills for the system prompt (see `skills_listing`).
pub fn format_skills(skills: &Vec<SkillSummary>) -> (r: String)
    ensures
        r@ == skills_listing(skills@),
{
    if skills.len() == 0 {
        return string_of("No skills found.");
    }
    let ghost lines = Seq::new(skills@.len(), |i: int| skill_line(skills@[i]));
    let mut out = String::new();
    let mut i: usize = 0;
    while i < skills.len()
        invariant
            i <= skills.len(),
            lines == Seq::new(skills@.len(), |i: int| skill_line(skills@[i])),
            out@ == join(lines.take(i as int), "\n"@),
        decreases skills.len() - i,
    {
        proof {
            assert(lines.take(i + 1) =~= lines.take(i as int).push(lines[i as int]));
            lemma_join_push(lines.take(i as int), lines[i as int], "\n"@);
        }
        if i > 0 {
            append_str(&mut out, "\n");
        }
        let s = &skills[i];
        let mut line = string_of("- ");
        append_str(&mut line, s.name.as_str());
        append_str(&mut line, "\n  - Path: ");
        append_str(&mut line, s.path.as_str());
        append_str(&mut line, "\n  - Description: ");
        append_str(&mut line, s.description.as_str());
        append_str(&mut out, line.as_str());
        i = i + 1;
    }
    assert(lines.take(skills.len() as int) =~= lines);
    out
}

/// The tools of `tools` that `exclude` does not name, in order.
pub open spec fn kept_tools(tools: Seq<Seq<char>>, exclude: Seq<Seq<char>>) -> Seq<Seq<char>> {
    tools.filter(|t: Seq<char>| !exclude.contains(t))
}

/// The tools an agent loads: those of its specification that it does not
/// exclude.
pub fn exclude_tools(tools: &Vec<String>, exclude: &Vec<String>) -> (r: Vec<String>)
    ensures
        strs_view(r@) == kept_tools(strs_view(tools@), strs_view(exclude@)),
{
    let ghost tv = strs_view(tools@);
    let ghost ev = strs_view(exclude@);
    let mut out: Vec<String> = Vec::new();
    let mut i: usize = 0;
    while i < tools.len()
        invariant
            i <= tools.len(),
            tv == strs_view(tools@),
            ev == strs_view(exclude@),
            strs_view(out@) == tv.take(i as int).filter(|t: Seq<char>| !ev.contains(t)),
        decreases tools.len() - i,
    {
        let mut found = false;
        let mut k: usize = 0;
        while k < exclude.len()
            invariant
                k <= exclude.len(),
                i < tools.len(),
                ev == strs_view(exclude@),
                found <==> exists|a: int| 0 <= a < k && ev[a] == tools@[i as int]@,
            decreases exclude.len() - k,
        {
            assert(ev[k as int] == exclude@[k as int]@);
            if str_equal(exclude[k].as_str(), tools[i].as_str()) {
                found = true;
            }
            k = k + 1;
        }
        proof {
            reveal_with_fuel(Seq::filter, 1);
            assert(tv.take(i + 1).drop_last() =~= tv.take(i as int));
            assert(tv.take(i + 1).last() == tv[i as int]);
            assert(found == ev.contains(tv[i as int]));
        }
        if !found {
            let ghost before = strs_view(out@);
            out.push(tools[i].clone());
            assert(strs_view(out@) =~= before.push(tools@[i as int]@));
        }
        i = i + 1;
    }
    assert(tv.take(tools.len() as int) =~= tv);
    out
}

} // verus!
