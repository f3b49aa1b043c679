use ruckup::plugin::{DepType, Dependency};
use ruckup::plugins::github_actions::{
    action_ref_matches, action_repo, latest_git_tag, list_dependencies, next_step,
    parse_uses_value, plan, release_url, remote_url, replacement_ref, resolve, rewrite_uses_line,
    tag_url, update_workflow, version_prefix, workflow_files, Answer, Step, TagError,
};

#[test]
fn parse_uses_value_extracts_repo_and_ref() {
    let parsed = parse_uses_value("uses: actions/checkout@v4").expect("expected parsed uses");
    assert_eq!(parsed.0, "actions/checkout");
    assert_eq!(parsed.1, "v4");
}

#[test]
fn parse_uses_value_ignores_local_actions() {
    assert!(parse_uses_value("uses: ./action").is_none());
    assert!(parse_uses_value("uses: docker://alpine:3.20").is_none());
}

#[test]
fn action_ref_matches_major_prefix() {
    assert!(action_ref_matches("v4", "v4.1.0"));
    assert!(!action_ref_matches("v3", "v4.1.0"));
}

#[test]
fn branches_are_followed() {
    assert!(action_ref_matches("main", "v9"));
    assert!(action_ref_matches("release/v4", "v4.1"));
    assert!(!action_ref_matches("v4.1.0.1", "v4.1"));
    assert!(!action_ref_matches("sha", "v4"));
    assert_eq!(replacement_ref("main", "v9"), None);
    assert_eq!(replacement_ref("v9", "v9"), None);
    assert_eq!(replacement_ref("release/v4", "v4.1"), None);
    assert_eq!(replacement_ref("v4", "v4.1").as_deref(), Some("v4.1"));
    assert_eq!(version_prefix("vv1.2-rc"), Some(vec![1, 2]));
    assert_eq!(version_prefix("..."), None);
}

#[test]
fn other_values_use_no_action() {
    assert!(parse_uses_value("- uses: a/b@v1").is_none());
    assert!(parse_uses_value("# uses: a/b@v1").is_none());
    assert!(parse_uses_value("uses: ${{ matrix.a }}/b@v1").is_none());
    assert!(parse_uses_value("uses: a@v1").is_none());
    assert!(parse_uses_value("uses: a/b@").is_none());
    assert!(parse_uses_value("uses:").is_none());
    assert_eq!(action_repo("a/b/c"), Some("a/b"));
    assert_eq!(action_repo("a"), None);
}

#[test]
fn rewritten_uses_lines_read_back() {
    let wanted = vec![("a/b".to_string(), "v2".to_string())];
    let written = rewrite_uses_line("      uses: a/b@v1 # note", &wanted);
    assert_eq!(written, "      uses: a/b@v2 # note");
    assert_eq!(
        parse_uses_value(&written),
        Some(("a/b".to_string(), "v2".to_string()))
    );
    let written = rewrite_uses_line("uses: 'a/b@v1'", &wanted);
    assert_eq!(
        parse_uses_value(&written),
        Some(("a/b".to_string(), "v2".to_string()))
    );
    assert_eq!(rewrite_uses_line("- uses: a/b@v1", &wanted), "- uses: a/b@v2");
    assert_eq!(rewrite_uses_line("uses: c/d@v1", &wanted), "uses: c/d@v1");
    assert_eq!(rewrite_uses_line("run: x", &wanted), "run: x");
}

#[test]
fn a_quoted_value_is_closed_once_more() {
    let wanted = vec![("a/b".to_string(), "v2".to_string())];
    assert_eq!(rewrite_uses_line("uses: \"a/b@v1\"", &wanted), "uses: \"a/b@v2\"\"");
}

#[test]
fn workflows_list_each_use_once() {
    let contents = vec![
        "uses: a/b@v1\nuses: c/d@v1\n".to_string(),
        "uses: a/b@v1\nuses: a/b@v2\n".to_string(),
    ];
    let deps = list_dependencies(&contents);
    let found: Vec<(&str, &str)> = deps
        .iter()
        .map(|d| (d.name.as_str(), d.current_version.as_str()))
        .collect();
    assert_eq!(found, vec![("a/b", "v1"), ("c/d", "v1"), ("a/b", "v2")]);
    assert_eq!(deps[0].dep_type, DepType::Build);
    let names = vec!["b.yaml".to_string(), "a.yml".to_string(), ".yml".to_string(), "c.txt".to_string()];
    assert_eq!(workflow_files(&names), vec!["a.yml", "b.yaml"]);
}

#[test]
fn workflows_are_updated() {
    let mut dep = Dependency::new("a/b".to_string(), "v1".to_string(), DepType::Build);
    dep.latest_version = Some("v2".to_string());
    let wanted = plan(&vec![dep]);
    assert_eq!(wanted, vec![("a/b".to_string(), "v2".to_string())]);
    assert_eq!(
        update_workflow("x\nuses: a/b@v1\n", &wanted).as_deref(),
        Some("x\nuses: a/b@v2\n")
    );
    let written = update_workflow("uses: c/d@v1\nuses: a/b@v1\n", &wanted).expect("a workflow");
    let deps = list_dependencies(&vec![written]);
    let found: Vec<(&str, &str)> = deps
        .iter()
        .map(|d| (d.name.as_str(), d.current_version.as_str()))
        .collect();
    assert_eq!(found, vec![("c/d", "v1"), ("a/b", "v2")]);
    assert_eq!(update_workflow("x\ny", &wanted), None);
    assert_eq!(update_workflow("x\ny\n", &wanted).as_deref(), Some("x\ny\n"));
}

#[test]
fn action_lookups_go_on_until_an_answer() {
    assert!(matches!(next_step(Answer::Release(Some("v1".to_string()))), Step::Done(s) if s == "v1"));
    assert!(matches!(next_step(Answer::Release(None)), Step::AskTags));
    assert!(matches!(next_step(Answer::Tags(Some(vec!["t".to_string()]))), Step::Done(s) if s == "t"));
    assert!(matches!(next_step(Answer::Tags(Some(Vec::new()))), Step::AskGit));
    assert!(matches!(next_step(Answer::Tags(None)), Step::AskGit));
    assert_eq!(release_url("a/b"), "https://api.github.com/repos/a/b/releases/latest");
    assert_eq!(tag_url("a/b"), "https://api.github.com/repos/a/b/tags?per_page=1");
    assert_eq!(remote_url("a/b"), "https://github.com/a/b");
}

#[test]
fn git_names_the_newest_tag() {
    assert_eq!(latest_git_tag("\nabc\trefs/tags/v2\ndef\trefs/tags/v1\n"), Ok("v2".to_string()));
    assert_eq!(latest_git_tag("\n  \n"), Err(TagError::NoTags));
    assert_eq!(latest_git_tag("abc\trefs/heads/x\n"), Err(TagError::Unreadable));
    assert_eq!(TagError::NoTags.message(), "no published tags found");
    assert_eq!(TagError::Unreadable.message(), "failed to parse tag output");
}

#[test]
fn action_lookups_settle() {
    let dep = Dependency::new("a/b".to_string(), "v1".to_string(), DepType::Build);
    assert!(resolve(dep, None).check_failed);
    let dep = Dependency::new("a/b".to_string(), "v1".to_string(), DepType::Build);
    assert!(resolve(dep, Some("v1.2".to_string())).satisfied);
    let dep = Dependency::new("a/b".to_string(), "v1".to_string(), DepType::Build);
    assert!(resolve(dep, Some("v2".to_string())).has_update());
}
