use kimi_agent::agent::{
    agents_md_candidates, agents_md_paths, ancestor_dirs, collect_agents_md, dirs_root_to_leaf,
    exclude_tools, format_skills, pick_project_root, SkillSummary,
};
use kimi_agent::agents_md::{merge_agents_md, truncate_utf8, AGENTS_MD_MAX_BYTES};
use kimi_agent::labor_market::LaborMarket;
use kimi_agent::template::{
    render_system_prompt, substitute_template, system_prompt_values, BuiltinSystemPromptArgs,
    TemplateValues,
};

fn strings(items: &[&str]) -> Vec<String> {
    items.iter().map(|s| s.to_string()).collect()
}

fn values(pairs: &[(&str, &str)]) -> TemplateValues {
    let mut v = TemplateValues::new();
    for (k, x) in pairs {
        v.insert(k.to_string(), x.to_string());
    }
    v
}

/// What `load_agents_md` gathers for `work_dir`, given which files exist
/// (`files`, with their texts) and which directories hold `.git`.
fn agents_md_for(work_dir: &str, git_dirs: &[&str], files: &[(&str, &str)]) -> Option<String> {
    let ancestors = ancestor_dirs(work_dir);
    let has_git: Vec<bool> = ancestors.iter().map(|d| git_dirs.contains(&d.as_str())).collect();
    let root = pick_project_root(work_dir, &ancestors, &has_git);
    let mut read: Vec<(String, Option<String>)> = Vec::new();
    for dir in dirs_root_to_leaf(work_dir, &root) {
        let (kimi, upper, lower) = agents_md_paths(&dir);
        let is_file = |p: &String| files.iter().any(|(f, _)| *f == p.as_str());
        for path in agents_md_candidates(&dir, is_file(&kimi), is_file(&upper), is_file(&lower)) {
            let text = files.iter().find(|(f, _)| *f == path.as_str()).map(|(_, t)| t.to_string());
            read.push((path, text));
        }
    }
    merge_agents_md(&collect_agents_md(&read))
}

#[test]
fn test_load_agents_md_found() {
    let text = agents_md_for("/tmp/w", &[], &[("/tmp/w/AGENTS.md", "Test agents content")])
        .expect("agents markdown content");
    assert!(text.contains("<!-- From: "));
    assert!(text.contains("Test agents content"));
    assert_eq!(text, "<!-- From: /tmp/w/AGENTS.md -->\nTest agents content");
}

#[test]
fn test_load_agents_md_not_found() {
    assert!(agents_md_for("/tmp/w", &[], &[]).is_none());
}

#[test]
fn test_load_agents_md_lowercase() {
    let text = agents_md_for("/tmp/w", &[], &[("/tmp/w/agents.md", "Lowercase agents content")])
        .expect("agents markdown content");
    assert!(text.contains("<!-- From: "));
    assert!(text.contains("Lowercase agents content"));
}

#[test]
fn test_load_agents_md_merges_root_to_leaf_with_kimi_priority() {
    let files = [
        ("/tmp/r/project/.kimi/AGENTS.md", "root kimi"),
        ("/tmp/r/project/AGENTS.md", "root upper"),
        ("/tmp/r/project/nested/.kimi/AGENTS.md", "leaf kimi"),
        ("/tmp/r/project/nested/AGENTS.md", "leaf upper"),
        ("/tmp/r/AGENTS.md", "above the root"),
    ];
    let content = agents_md_for("/tmp/r/project/nested", &["/tmp/r/project"], &files)
        .expect("merged agents content");
    assert!(content.contains("root kimi"));
    assert!(content.contains("root upper"));
    assert!(content.contains("leaf kimi"));
    assert!(content.contains("leaf upper"));
    assert!(!content.contains("above the root"));
    let order: Vec<usize> = ["root kimi", "root upper", "leaf kimi", "leaf upper"]
        .iter()
        .map(|t| content.find(t).expect("present"))
        .collect();
    assert!(order.windows(2).all(|w| w[0] < w[1]));
}

#[test]
fn upper_case_name_wins_over_lower_case() {
    let got = agents_md_candidates("/p", false, true, true);
    assert_eq!(got, strings(&["/p/AGENTS.md"]));
    let got = agents_md_candidates("/p", true, false, true);
    assert_eq!(got, strings(&["/p/.kimi/AGENTS.md", "/p/agents.md"]));
    assert!(agents_md_candidates("/p", false, false, false).is_empty());
}

#[test]
fn blank_or_unreadable_agents_md_is_skipped() {
    let read = vec![
        ("/a".to_string(), Some("  \n\t ".to_string())),
        ("/b".to_string(), None),
        ("/c".to_string(), Some("  keep me \n".to_string())),
    ];
    assert_eq!(collect_agents_md(&read), vec![("/c".to_string(), "keep me".to_string())]);
}

#[test]
fn dirs_root_to_leaf_walks_down_from_root() {
    assert_eq!(dirs_root_to_leaf("/a/b/c", "/a"), strings(&["/a", "/a/b", "/a/b/c"]));
    assert_eq!(dirs_root_to_leaf("/a/b", "/a/b"), strings(&["/a/b"]));
    assert_eq!(dirs_root_to_leaf("/a/b", "/elsewhere"), strings(&["/", "/a", "/a/b"]));
}

#[test]
fn dirs_root_to_leaf_matches_root_by_components() {
    assert_eq!(dirs_root_to_leaf("/a/b", "/a/"), strings(&["/a", "/a/b"]));
    assert_eq!(dirs_root_to_leaf("/a/b/", "/a/b"), strings(&["/a/b/"]));
    assert_eq!(dirs_root_to_leaf("/a/./b", "/a"), strings(&["/a", "/a/./b"]));
}

#[test]
fn ancestors_and_project_root() {
    let ancestors = ancestor_dirs("/x/y/z");
    assert_eq!(ancestors, strings(&["/x/y/z", "/x/y", "/x", "/"]));
    assert_eq!(pick_project_root("/x/y/z", &ancestors, &vec![false, true, true, false]), "/x/y");
    assert_eq!(pick_project_root("/x/y/z", &ancestors, &vec![false, false, false, false]), "/x/y/z");
}

#[test]
fn truncate_utf8_keeps_text_that_fits() {
    assert_eq!(truncate_utf8("  abc  ", 10), "  abc  ");
    assert_eq!(truncate_utf8("abc", 3), "abc");
}

#[test]
fn truncate_utf8_cuts_at_char_boundary_and_trims() {
    assert_eq!(truncate_utf8("héllo", 2), "h");
    assert_eq!(truncate_utf8("héllo", 3), "hé");
    assert_eq!(truncate_utf8("  ab  ", 3), "a");
    assert_eq!(truncate_utf8("日本", 2), "");
    assert_eq!(truncate_utf8("abc", 0), "");
}

#[test]
fn merged_agents_md_stays_within_budget() {
    let big = "x".repeat(40000);
    let discovered = vec![
        ("/root/AGENTS.md".to_string(), "root text".to_string()),
        ("/root/leaf/AGENTS.md".to_string(), big),
    ];
    let merged = merge_agents_md(&discovered).expect("something kept");
    assert!(merged.len() <= AGENTS_MD_MAX_BYTES);
    assert!(merged.starts_with("<!-- From: /root/leaf/AGENTS.md -->\nxxx"));
    assert!(!merged.contains("root text"));
}

#[test]
fn merged_agents_md_separates_parts_with_blank_lines() {
    let discovered = vec![
        ("/a".to_string(), "one".to_string()),
        ("/b".to_string(), "two".to_string()),
    ];
    assert_eq!(
        merge_agents_md(&discovered),
        Some("<!-- From: /a -->\none\n\n<!-- From: /b -->\ntwo".to_string())
    );
    assert_eq!(merge_agents_md(&Vec::new()), None);
}

#[test]
fn skills_listing() {
    assert_eq!(format_skills(&Vec::new()), "No skills found.");
    let skills = vec![
        SkillSummary { name: "a".into(), path: "/s/a/SKILL.md".into(), description: "does a".into() },
        SkillSummary { name: "b".into(), path: "/s/b/SKILL.md".into(), description: "does b".into() },
    ];
    assert_eq!(
        format_skills(&skills),
        "- a\n  - Path: /s/a/SKILL.md\n  - Description: does a\n- b\n  - Path: /s/b/SKILL.md\n  - Description: does b"
    );
}

#[test]
fn excluded_tools_are_dropped_in_order() {
    let tools = strings(&["read", "write", "shell", "read"]);
    assert_eq!(exclude_tools(&tools, &strings(&["read"])), strings(&["write", "shell"]));
    assert_eq!(exclude_tools(&tools, &Vec::new()), tools);
}

#[test]
fn labor_market_keeps_fixed_and_dynamic_subagents() {
    let mut market: LaborMarket<u32> = LaborMarket::new();
    market.add_fixed_subagent("coder".into(), 1, "writes code".into());
    market.add_fixed_subagent("tester".into(), 2, "runs tests".into());
    market.add_dynamic_subagent("coder".into(), 10);
    market.add_dynamic_subagent("helper".into(), 3);
    market.add_fixed_subagent("tester".into(), 20, "runs all tests".into());
    assert_eq!(market.fixed_subagents().len(), 2);
    assert_eq!(market.fixed_subagent_descs().len(), 2);
    assert!(market
        .fixed_subagent_descs()
        .contains(&("tester".to_string(), "runs all tests".to_string())));
    let mut all = market.all_subagents();
    all.sort();
    assert_eq!(
        all,
        vec![("coder".to_string(), 10), ("helper".to_string(), 3), ("tester".to_string(), 20)]
    );
    assert_eq!(market.dynamic_subagents().len(), 2);
}

#[test]
fn substitute_template_fills_placeholders() {
    let v = values(&[("NAME", "Kimi"), ("DIR", "/w")]);
    assert_eq!(substitute_template("Hi ${NAME} in ${DIR}.", &v), Ok("Hi Kimi in /w.".to_string()));
    assert_eq!(substitute_template("cost: $5 {x} ${} ${a-b}", &v), Ok("cost: $5 {x} ${} ${a-b}".to_string()));
}

#[test]
fn substitute_template_reports_missing_sorted_once() {
    let v = values(&[("A", "1")]);
    assert_eq!(
        substitute_template("${Z} ${A} ${B} ${Z}", &v),
        Err(strings(&["B", "Z"]))
    );
}

#[test]
fn system_prompt_uses_builtins_overridden_by_args() {
    let builtin = BuiltinSystemPromptArgs {
        KIMI_NOW: "now".into(),
        KIMI_WORK_DIR: "/w".into(),
        KIMI_WORK_DIR_LS: "ls".into(),
        KIMI_AGENTS_MD: "md".into(),
        KIMI_SKILLS: "skills".into(),
    };
    let args = vec![("ROLE".to_string(), "coder".to_string()), ("KIMI_NOW".to_string(), "later".to_string())];
    let v = system_prompt_values(&builtin, &args);
    let out = render_system_prompt("/p/system.md", "\n  ${ROLE} at ${KIMI_NOW} in ${KIMI_WORK_DIR}  \n", &v);
    assert_eq!(out.ok().map(|s| s), Some("coder at later in /w".to_string()));
    match render_system_prompt("/p/system.md", "${X} ${W}", &v) {
        Err(e) => assert_eq!(e.message, "Missing system prompt arg in /p/system.md: W, X"),
        Ok(_) => panic!("missing args must fail"),
    }
    assert_eq!(builtin.as_map().get("KIMI_SKILLS").map(|s| s.as_str()), Some("skills"));
}
