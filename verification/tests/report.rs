use ruckup::cli::ReportFormatArg;
use ruckup::plugin::{DepType, Dependency};
use ruckup::report::analysis::{
    analyze_dependency, compared_repository, compared_versions, ecosystem_of, has_tree_findings,
    target_version, Ecosystem, Lookups,
};
use ruckup::report::archived::{
    archived_findings, repositories, shortest_dependency_path, unparsed_tree, unreadable_tree,
    Metadata, Package, TreeNode,
};
use ruckup::report::delta::{
    diff_dependency_maps, find_value, normalize_supply_chain, parse_requires_dist, SupplyChainDelta,
};
use ruckup::report::html::{escape_html, render_html};
use ruckup::report::links::{
    classify_semver_change, extract_version_core, github_compare_link, github_ref_candidates,
    github_repo_owner_name, impact_of, is_listed, matching_refs_url, normalize_repo_url,
    parse_npm_repo, python_changelog, python_repository, ref_queries, repo_endpoint,
    trim_trailing_slash, RefKind,
};
use ruckup::report::output::{is_directory_output, preferred, resolve_output_paths, Placement};
use ruckup::report::pages::{page_ops, paginate, wrap_text_lines, PageOp};
use ruckup::report::render::{render_markdown, render_text};
use ruckup::report::{
    map_report_format, DependencyReport, LinkRef, PluginReport, ReportFormat, UpgradeReport,
};
use ruckup::tree::Node;

fn strings(items: &[&str]) -> Vec<String> {
    items.iter().map(|s| s.to_string()).collect()
}

fn pairs(items: &[(&str, &str)]) -> Vec<(String, String)> {
    items.iter().map(|(a, b)| (a.to_string(), b.to_string())).collect()
}

fn facts() -> Lookups {
    Lookups {
        repository: Some("https://github.com/a/b/".to_string()),
        page: Some("https://b.example".to_string()),
        compare: Some("https://github.com/a/b/compare/v1...v2".to_string()),
        findings: strings(&["finding"]),
        current_deps: pairs(&[("x", "1"), ("y", "1")]),
        latest_deps: pairs(&[("y", "2"), ("z", "1")]),
    }
}

fn dep(name: &str, current: &str, latest: Option<&str>) -> Dependency {
    let mut dep = Dependency::new(name.to_string(), current.to_string(), DepType::Normal);
    dep.latest_version = latest.map(|v| v.to_string());
    dep
}

fn labels(links: &[LinkRef]) -> Vec<(&str, &str)> {
    links.iter().map(|l| (l.label.as_str(), l.url.as_str())).collect()
}

#[test]
fn crates_are_analyzed() {
    let report = analyze_dependency("Cargo", &dep("b", "^1.0.0", Some("2.0.0")), &facts());
    assert_eq!(report.latest_version, "2.0.0");
    assert_eq!(report.semver_impact, "breaking");
    assert_eq!(
        labels(&report.diff_links),
        vec![
            ("SCM diff", "https://github.com/a/b/compare/v1...v2"),
            ("Crates.io", "https://crates.io/crates/b"),
        ]
    );
    assert_eq!(
        labels(&report.changelog_links),
        vec![
            ("Releases", "https://github.com/a/b/releases"),
            ("Homepage", "https://b.example"),
        ]
    );
    assert_eq!(report.security_links[0].url, "https://deps.dev/cargo/b");
    assert_eq!(report.security_findings, vec!["finding"]);
    assert_eq!(report.supply_chain.added, vec!["z@1"]);
    assert_eq!(report.supply_chain.removed, vec!["x@1"]);
    assert_eq!(report.supply_chain.changed, vec!["y: 1 -> 2"]);
}

#[test]
fn other_ecosystems_are_analyzed() {
    let npm = analyze_dependency("npm", &dep("b", "^1.0.0", Some("1.1.0")), &facts());
    assert_eq!(npm.semver_impact, "feature");
    assert!(npm.security_findings.is_empty());
    assert_eq!(npm.diff_links[1].url, "https://www.npmjs.com/package/b");
    let python = analyze_dependency("requirements", &dep("b", "*", Some("1.1.0")), &facts());
    assert_eq!(python.changelog_links[1].label, "Changelog");
    assert_eq!(
        python.supply_chain.note.as_deref(),
        Some("Supply-chain delta unavailable for this ecosystem/dependency.")
    );
    let action = analyze_dependency("github-actions", &dep("a/b/c", "v1", Some("v2")), &facts());
    assert_eq!(action.changelog_links[0].url, "https://github.com/a/b/releases");
    let image = analyze_dependency("docker", &dep("node", "1", Some("2")), &facts());
    assert_eq!(image.diff_links[0].url, "https://hub.docker.com/_/node");
    let other = analyze_dependency("npm (package.json)", &dep("b", "1.0.0", None), &facts());
    assert!(other.diff_links.is_empty());
    assert_eq!(other.latest_version, "1.0.0");
    assert_eq!(ecosystem_of("PYPROJECT"), Some(Ecosystem::Python));
    assert!(has_tree_findings("CARGO"));
    assert!(!has_tree_findings("npm"));
    assert_eq!(target_version(&dep("b", "1", Some("2"))), "2");
    assert_eq!(
        compared_versions(&dep("b", "^1.2", Some("2.0.0"))),
        Some(("1.2".to_string(), "2.0.0".to_string()))
    );
    assert_eq!(
        compared_repository("github-actions", &dep("a/b/c", "v1", None), &None).as_deref(),
        Some("https://github.com/a/b")
    );
}

#[test]
fn versions_are_compared() {
    assert_eq!(extract_version_core(">=1.2.3, <2").as_deref(), Some("1.2.3"));
    assert_eq!(extract_version_core("*"), None);
    assert_eq!(classify_semver_change("^1.2.3", "1.2.4"), "bugfix");
    assert_eq!(classify_semver_change("^1.2.3", "1.3.0"), "feature");
    assert_eq!(classify_semver_change("1.2.3", "1.2.3"), "version-change");
    assert_eq!(classify_semver_change("x", "1.2.3"), "unknown");
    assert_eq!(classify_semver_change("1.2", "1.3.0"), "version-change");
    assert_eq!(impact_of(Some((1, 0, 0)), Some((2, 0, 0))), "breaking");
    assert_eq!(impact_of(None, Some((2, 0, 0))), "version-change");
}

#[test]
fn repositories_are_named() {
    assert_eq!(
        normalize_repo_url(" git+https://github.com/a/b.git ").as_deref(),
        Some("https://github.com/a/b")
    );
    assert_eq!(
        normalize_repo_url("git@github.com:a/b.git").as_deref(),
        Some("https://github.com/a/b")
    );
    assert_eq!(normalize_repo_url("https://gitlab.com/a/b"), None);
    assert_eq!(
        github_repo_owner_name("https://github.com/a/b"),
        Some(("a".to_string(), "b".to_string()))
    );
    assert_eq!(
        repo_endpoint("https://github.com/a/b").as_deref(),
        Some("https://api.github.com/repos/a/b")
    );
    assert_eq!(repo_endpoint("https://github.com/a/b/c"), None);
    assert_eq!(trim_trailing_slash("x//"), "x");
    let table = Node::Table(vec![("url".to_string(), Node::Text("u".to_string()))]);
    assert_eq!(parse_npm_repo(&table).as_deref(), Some("u"));
    assert_eq!(parse_npm_repo(&Node::Text("t".to_string())).as_deref(), Some("t"));
    assert_eq!(parse_npm_repo(&Node::Other("3".to_string())), None);
    let urls = pairs(&[("Docs", "d"), ("Source Code", "s"), ("Release notes", "n")]);
    assert_eq!(python_repository(&urls, None).as_deref(), Some("s"));
    assert_eq!(python_repository(&Vec::new(), Some("h".to_string())).as_deref(), Some("h"));
    assert_eq!(python_changelog(&urls).as_deref(), Some("n"));
}

#[test]
fn comparisons_are_linked() {
    let link = github_compare_link(
        "https://github.com/a/b",
        "1.0.0",
        "1.1.0",
        &Some("v1.0.0".to_string()),
        &Some("v1.1.0".to_string()),
    );
    assert_eq!(link.as_deref(), Some("https://github.com/a/b/compare/v1.0.0...v1.1.0"));
    let link = github_compare_link("https://github.com/a/b", "^1.0.0", "1.1.0", &None, &None);
    assert_eq!(link.as_deref(), Some("https://github.com/a/b/compare/1.0.0...1.1.0"));
    assert_eq!(github_compare_link("https://x.example", "1", "2", &None, &None), None);
    let candidates = github_ref_candidates("v1.2.3");
    for (i, candidate) in candidates.iter().enumerate() {
        assert!(!candidates[..i].contains(candidate));
    }
    let queries = ref_queries("v1.2.3");
    assert_eq!(queries.len(), 2 * candidates.len());
    assert_eq!(queries[0].0, RefKind::Tags);
    assert_eq!(
        matching_refs_url("a", "b", RefKind::Tags, "x/1"),
        "https://api.github.com/repos/a/b/git/matching-refs/tags/x%2F1"
    );
    assert!(is_listed(&strings(&["refs/tags/v1"]), RefKind::Tags, "v1"));
    assert!(!is_listed(&strings(&["refs/tags/v1"]), RefKind::Heads, "v1"));
}

#[test]
fn dependency_maps_are_compared() {
    let old = pairs(&[("b", "1"), ("a", "1"), ("c", "1")]);
    let new = pairs(&[("c", "1"), ("b", "2"), ("d", "1")]);
    let delta = diff_dependency_maps(&old, &new);
    assert_eq!(delta.added, vec!["d@1"]);
    assert_eq!(delta.removed, vec!["a@1"]);
    assert_eq!(delta.changed, vec!["b: 1 -> 2"]);
    let same = normalize_supply_chain(diff_dependency_maps(&old, &old));
    assert_eq!(same.note.as_deref(), Some("No transitive dependency changes detected."));
    assert_eq!(find_value(&pairs(&[("a", "1"), ("a", "2")]), "a"), Some("2"));
    assert_eq!(
        parse_requires_dist(&strings(&["a[x]>=1 ; extra == 'y'", "b", ";", "[c]"])),
        pairs(&[("a", ">=1"), ("b", "*")])
    );
}

fn package(id: &str, repository: Option<&str>) -> Package {
    Package {
        id: id.to_string(),
        name: format!("name-{id}"),
        version: "1.0".to_string(),
        repository: repository.map(|r| r.to_string()),
    }
}

fn node(id: &str, deps: &[&str]) -> TreeNode {
    TreeNode { id: id.to_string(), deps: strings(deps) }
}

#[test]
fn ways_are_shortest() {
    let nodes = vec![node("r", &["a", "b"]), node("a", &["t"]), node("b", &["c"]), node("c", &["t"])];
    let roots = strings(&["r"]);
    assert_eq!(
        shortest_dependency_path(&roots, &nodes, "t"),
        Some(strings(&["r", "a", "t"]))
    );
    assert_eq!(
        shortest_dependency_path(&strings(&["r", "c"]), &nodes, "t"),
        Some(strings(&["c", "t"]))
    );
    assert_eq!(shortest_dependency_path(&roots, &nodes, "x"), None);
    assert_eq!(shortest_dependency_path(&roots, &nodes, "r"), Some(roots.clone()));
}

#[test]
fn archived_packages_are_found() {
    let tree = Metadata {
        packages: vec![
            package("r", None),
            package("t", Some("https://github.com/o/t.git")),
            package("u", Some("https://github.com/o/t")),
            package("v", Some("https://github.com/o/v")),
            package("w", Some("https://example.com/w")),
        ],
        workspace_members: strings(&["r"]),
        nodes: vec![node("r", &["m", "t"]), node("m", &["v"])],
    };
    assert_eq!(
        repositories(&tree),
        strings(&["https://github.com/o/t", "https://github.com/o/v"])
    );
    let archived = strings(&["https://github.com/o/t", "https://github.com/o/v"]);
    assert_eq!(
        archived_findings(&tree, &archived),
        strings(&[
            "Archived crate detected: name-t 1.0 via name-r -> name-t",
            "Archived crate detected: name-u 1.0 (path unavailable)",
            "Archived crate detected: name-v 1.0 via name-r -> unknown -> name-v",
        ])
    );
    assert!(archived_findings(&tree, &Vec::new()).is_empty());
    assert_eq!(
        unreadable_tree(),
        "Could not evaluate full Cargo dependency tree maintenance status."
    );
    assert_eq!(
        unparsed_tree(),
        "Could not parse Cargo metadata for full dependency tree analysis."
    );
}

#[test]
fn reports_go_to_paths() {
    let all = vec![ReportFormat::Html, ReportFormat::Pdf, ReportFormat::Html];
    assert_eq!(
        resolve_output_paths(&all, "out/", false, false),
        vec![
            (ReportFormat::Html, Placement::InDirectory),
            (ReportFormat::Pdf, Placement::InDirectory),
        ]
    );
    assert_eq!(
        resolve_output_paths(&all, "out.x", false, true)[0].1,
        Placement::WithExtension
    );
    let one = vec![ReportFormat::Text, ReportFormat::Text];
    assert_eq!(
        resolve_output_paths(&one, "out.x", false, true),
        vec![(ReportFormat::Text, Placement::AsGiven)]
    );
    assert_eq!(
        resolve_output_paths(&one, "out", false, false),
        vec![(ReportFormat::Text, Placement::WithExtension)]
    );
    assert!(is_directory_output("out", true));
    assert!(!is_directory_output("out", false));
    assert_eq!(preferred(&strings(&["a.txt", "b.html", "c.html"])), Some(1));
    assert_eq!(preferred(&strings(&["a.txt", "b.md"])), Some(0));
    assert_eq!(preferred(&Vec::new()), None);
    assert_eq!(ReportFormat::Markdown.ext(), "md");
    assert_eq!(ReportFormat::Pdf.default_name(), "ruckup-report.pdf");
    assert_eq!(map_report_format(&ReportFormatArg::Html), ReportFormat::Html);
}

fn bundle() -> UpgradeReport {
    UpgradeReport {
        generated_at_utc: "now".to_string(),
        plugins: vec![PluginReport {
            plugin: "npm".to_string(),
            security_findings: strings(&["tree"]),
            dependencies: vec![DependencyReport {
                name: "a<b".to_string(),
                current_version: "1".to_string(),
                latest_version: "2".to_string(),
                semver_impact: "major".to_string(),
                diff_links: vec![LinkRef { label: "L".to_string(), url: "u".to_string() }],
                changelog_links: Vec::new(),
                security_links: Vec::new(),
                security_findings: Vec::new(),
                supply_chain: SupplyChainDelta {
                    added: strings(&["z 1"]),
                    removed: Vec::new(),
                    changed: Vec::new(),
                    note: None,
                },
            }],
        }],
    }
}

#[test]
fn reports_are_rendered() {
    let text = render_text(&bundle());
    assert!(text.starts_with("ruckup upgrade intelligence report\ngenerated at: now\n\n== npm ==\n"));
    assert!(text.contains("- a<b: 1 -> 2 (major)\n  Diff links:\n    - L: u\n"));
    let markdown = render_markdown(&bundle());
    assert!(markdown.contains("### a<b\n\n- Current: `1`\n- Latest: `2`\n- Semver impact: **major**\n"));
    let html = render_html(&bundle());
    assert!(html.contains("a&lt;b"));
    assert!(!html.contains("a<b"));
    let empty = UpgradeReport { generated_at_utc: "now".to_string(), plugins: Vec::new() };
    assert_eq!(
        render_text(&empty),
        "ruckup upgrade intelligence report\ngenerated at: now\n\nNo upgrade candidates found.\n"
    );
    assert!(render_markdown(&empty).ends_with("No upgrade candidates found.\n"));
    assert_eq!(
        escape_html("<a href=\"x\">'&'</a>"),
        "&lt;a href=&quot;x&quot;&gt;'&amp;'&lt;/a&gt;"
    );
}

#[test]
fn lines_are_wrapped_and_paged() {
    assert_eq!(wrap_text_lines("aa bb cc\nd", 5), strings(&["aa bb", "cc", "d"]));
    assert_eq!(wrap_text_lines("abcdefgh ij", 4), strings(&["abcdefgh", "ij"]));
    assert_eq!(wrap_text_lines("", 5), Vec::<String>::new());
    let lines: Vec<String> = (0..56).map(|i| format!("line {i}")).collect();
    let pages = paginate(&lines);
    assert_eq!(pages.len(), 2);
    assert_eq!(pages[0].len(), 55);
    assert_eq!(pages.concat(), lines);
    assert!(paginate(&Vec::new()).is_empty());
    let ops = page_ops(&strings(&["a", "b"]));
    assert_eq!(ops.len(), 8);
    assert!(matches!(&ops[4], PageOp::Show(line) if line == "a"));
    assert!(matches!(ops[5], PageOp::NextLine));
    assert!(matches!(ops[7], PageOp::End));
}
