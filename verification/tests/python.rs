use ruckup::plugin::{DepType, Dependency};
use ruckup::plugins::pypi;
use ruckup::plugins::pyproject::{list_dependencies, parse_pep508, update_item, update_manifest};
use ruckup::plugins::requirements::{
    parse_requirement_line, parse_requirements, rewrite_requirement_line, update_requirements,
};
use ruckup::tree::Node;

fn update(name: &str, current: &str, latest: &str) -> Dependency {
    let mut dep = Dependency::new(name.to_string(), current.to_string(), DepType::Normal);
    dep.latest_version = Some(latest.to_string());
    dep
}

#[test]
fn parse_pep508_with_version_specifier() {
    let parsed = parse_pep508("requests>=2.28.0").expect("failed to parse");
    assert_eq!(parsed.0, "requests");
    assert_eq!(parsed.1, ">=2.28.0");
}

#[test]
fn parse_pep508_without_version_defaults_to_wildcard() {
    let parsed = parse_pep508("rich").expect("failed to parse");
    assert_eq!(parsed.0, "rich");
    assert_eq!(parsed.1, "*");
}

#[test]
fn parse_pep508_strips_extras_and_markers() {
    let parsed = parse_pep508("uvicorn[standard]>=0.34; python_version >= '3.9'")
        .expect("failed to parse");
    assert_eq!(parsed.0, "uvicorn");
    assert_eq!(parsed.1, ">=0.34");
}

#[test]
fn parse_requirement_line_skips_directives_and_comments() {
    assert!(parse_requirement_line("").is_none());
    assert!(parse_requirement_line("# comment").is_none());
    assert!(parse_requirement_line("-r base.txt").is_none());
    assert!(parse_requirement_line("pkg @ https://example.com/pkg.whl").is_none());
}

#[test]
fn parse_requirement_line_supports_extras_markers_and_comments() {
    let parsed = parse_requirement_line(
        "requests[socks]>=2.31 ; python_version >= '3.10'  # keep comment",
    )
    .expect("failed to parse requirement");

    assert_eq!(parsed.name, "requests");
    assert_eq!(parsed.spec_target, "requests[socks]");
    assert_eq!(parsed.current_version, ">=2.31");
}

#[test]
fn parse_requirements_keeps_unpinned_packages() {
    let deps = parse_requirements("rich\npytest==8.3.5\n");
    assert_eq!(deps.len(), 2);
    assert_eq!(deps[0].name, "rich");
    assert_eq!(deps[0].current_version, "*");
    assert_eq!(deps[1].name, "pytest");
    assert_eq!(deps[1].current_version, "==8.3.5");
}

#[test]
fn rewrite_requirement_line_preserves_marker_and_comment() {
    let mut dep = Dependency::new(
        "requests".to_string(),
        ">=2.31".to_string(),
        DepType::Normal,
    );
    dep.latest_version = Some("2.32.3".to_string());

    let updated = rewrite_requirement_line(
        "  requests[socks]>=2.31 ; python_version >= '3.10'  # keep comment",
        &dep,
        true,
    );

    assert_eq!(
        updated,
        "  requests[socks]>=2.32.3; python_version >= '3.10' # keep comment"
    );
}

#[test]
fn rewrite_requirement_line_can_pin_latest() {
    let mut dep = Dependency::new(
        "requests".to_string(),
        ">=2.31".to_string(),
        DepType::Normal,
    );
    dep.latest_version = Some("2.32.3".to_string());

    let updated = rewrite_requirement_line("requests[socks]>=2.31", &dep, false);
    assert_eq!(updated, "requests[socks]==2.32.3");
}

#[test]
fn rewritten_requirements_read_back() {
    let dep = update("requests", ">=2.31", "2.32.3");
    let line = "requests[socks]>=2.31 ; python_version >= '3.10'  # keep";
    let written = rewrite_requirement_line(line, &dep, true);
    let parsed = parse_requirement_line(&written).expect("a requirement");
    assert_eq!(parsed.name, "requests");
    assert_eq!(parsed.current_version, ">=2.32.3");
}

#[test]
fn rewriting_a_requirement_again_changes_nothing() {
    let dep = update("requests", ">=2.31", "2.32.3");
    for line in ["  requests[socks] >= 2.31 ; python_version > '3'  # keep", "requests", "rich", "-r x"] {
        let once = rewrite_requirement_line(line, &dep, false);
        assert_eq!(rewrite_requirement_line(&once, &dep, false), once);
    }
    let once = rewrite_requirement_line("requests ~= 2.31 #x", &dep, true);
    assert_eq!(once, "requests~= 2.32.3 #x");
    assert_eq!(rewrite_requirement_line(&once, &dep, true), once);
    let unknown = Dependency::new("requests".to_string(), "*".to_string(), DepType::Normal);
    assert_eq!(rewrite_requirement_line("requests>=1", &unknown, false), "requests>=1");
}

#[test]
fn requirement_files_are_updated() {
    let updates = vec![update("requests", ">=2.31", "2.32.3")];
    assert_eq!(
        update_requirements("rich\nrequests>=2.31\n", &updates, true),
        "rich\nrequests>=2.32.3\n"
    );
    let deps = parse_requirements(&update_requirements("rich\nrequests>=2.31\n", &updates, true));
    let found: Vec<(&str, &str)> = deps
        .iter()
        .map(|d| (d.name.as_str(), d.current_version.as_str()))
        .collect();
    assert_eq!(found, vec![("rich", "*"), ("requests", ">=2.32.3")]);
    let other = "rich\n-r base.txt";
    assert_eq!(update_requirements(other, &updates, true), other);
}

#[test]
fn index_lookups_settle() {
    let settled = |current: &str, latest: &str| {
        let dep = Dependency::new("p".to_string(), current.to_string(), DepType::Normal);
        pypi::resolve(dep, Some(latest.to_string()))
    };
    assert!(settled(">=2.0", "2.1").satisfied);
    assert!(settled("<2.0", "2.1").has_update());
    assert!(settled("==1.*", "1.9").satisfied);
    assert!(settled("*", "2.1").satisfied);
    assert!(settled("nonsense", "2.1").has_update());
    assert!(settled("odd", "odd").satisfied);
    assert!(settled(">=1", "odd").has_update());
    let dep = Dependency::new("p".to_string(), "*".to_string(), DepType::Normal);
    assert!(pypi::resolve(dep, None).check_failed);
    assert_eq!(pypi::package_url("p"), "https://pypi.org/pypi/p/json");
    assert_eq!(pypi::version_url("p", "1"), "https://pypi.org/pypi/p/1/json");
}

#[test]
fn settling_takes_the_verdict() {
    let dep = Dependency::new("p".to_string(), "x".to_string(), DepType::Normal);
    assert!(pypi::settle(dep, Some("1".to_string()), true, Some(true)).satisfied);
    let dep = Dependency::new("p".to_string(), "x".to_string(), DepType::Normal);
    assert!(!pypi::settle(dep, Some("1".to_string()), true, None).satisfied);
    let dep = Dependency::new("p".to_string(), "*".to_string(), DepType::Normal);
    assert!(!pypi::settle(dep, Some("1".to_string()), false, Some(true)).satisfied);
}

const PROJECT: &str = "[project]
dependencies = [\"requests>=2.31\", \"rich\"]  # keep

[project.optional-dependencies]
web = [\"uvicorn>=0.34\"]

[tool.uv]
dev-dependencies = [\"pytest==8.0\"]

[dependency-groups]
dev = [\"ruff>=0.1\"]
docs = [\"sphinx>=7\"]
";

#[test]
fn projects_list_their_dependencies() {
    let deps = list_dependencies(PROJECT).expect("a project");
    let found: Vec<(&str, &str, DepType)> = deps
        .iter()
        .map(|d| (d.name.as_str(), d.current_version.as_str(), d.dep_type))
        .collect();
    assert_eq!(
        found,
        vec![
            ("requests", ">=2.31", DepType::Normal),
            ("rich", "*", DepType::Normal),
            ("uvicorn", ">=0.34", DepType::Optional),
            ("pytest", "==8.0", DepType::Dev),
            ("ruff", ">=0.1", DepType::Dev),
            ("sphinx", ">=7", DepType::Optional),
        ]
    );
    assert!(list_dependencies("[project").is_err());
}

#[test]
fn projects_are_updated() {
    let updates = vec![
        update("requests", ">=2.31", "2.32.3"),
        update("uvicorn", ">=0.34", "0.35.0"),
        update("pytest", "==8.0", "8.3.5"),
        update("sphinx", ">=7", "8"),
    ];
    let written = update_manifest(PROJECT, &updates, true).expect("a project");
    assert_eq!(
        written,
        PROJECT
            .replace("requests>=2.31", "requests>=2.32.3")
            .replace("uvicorn>=0.34", "uvicorn>=0.35.0")
            .replace("pytest==8.0", "pytest==8.3.5")
            .replace("sphinx>=7", "sphinx>=8")
    );
    let deps = list_dependencies(&written).expect("a project");
    let found: Vec<(&str, &str, DepType)> = deps
        .iter()
        .map(|d| (d.name.as_str(), d.current_version.as_str(), d.dep_type))
        .collect();
    assert_eq!(
        found,
        vec![
            ("requests", ">=2.32.3", DepType::Normal),
            ("rich", "*", DepType::Normal),
            ("uvicorn", ">=0.35.0", DepType::Optional),
            ("pytest", "==8.3.5", DepType::Dev),
            ("ruff", ">=0.1", DepType::Dev),
            ("sphinx", ">=8", DepType::Optional),
        ]
    );
    let pinned = update_manifest(PROJECT, &updates, false).expect("a project");
    assert_eq!(list_dependencies(&pinned).expect("a project")[0].current_version, "==2.32.3");
    assert!(update_manifest("[project", &updates, true).is_err());
}

#[test]
fn digits_before_the_operator_stay() {
    let updates = vec![
        update("boto3", "==1.34.0", "1.35.0"),
        update("pkg", ">=1", "2.0"),
        update("h2", "~= 4", "5.1"),
        update("black", "==23", "24.1"),
    ];
    let write = |old: &str, preserve: bool| {
        update_item(&Node::Text(old.to_string()), &updates, preserve).expect("an update")
    };
    assert_eq!(write("boto3==1.34.0", true), "boto3==1.35.0");
    assert_eq!(write("boto3==1.34.0", false), "boto3==1.35.0");
    assert_eq!(write("pkg[s3]>=1", true), "pkg[s3]>=2.0");
    assert_eq!(write("pkg[s3]>=1", false), "pkg==2.0");
    assert_eq!(write("h2 ~= 4; python_version >= '3.9'", true), "h2 ~= 5.1");
    assert_eq!(write("black==23", true), "black==24.1");
    assert!(update_item(&Node::Text("rich>=1".to_string()), &updates, true).is_none());
    let long = format!("[project]\ndependencies = [\"pkg[{}]>=1\"]\n", "'".repeat(256));
    assert!(update_manifest(&long, &updates, true).is_err());
    assert!(update_manifest(&long, &updates, false).is_ok());
    let project = "[project]\ndependencies = [\"boto3==1.34.0\"]\n";
    assert_eq!(
        update_manifest(project, &updates, true).as_deref(),
        Ok("[project]\ndependencies = [\"boto3==1.35.0\"]\n")
    );
}

#[test]
fn inline_tables_of_lists_are_updated() {
    let project = "dependency-groups = { dev = [\"ruff>=0.1\"] }
[project]
optional-dependencies = { web = [\"uvicorn>=0.34\"] }
";
    let updates = vec![update("uvicorn", ">=0.34", "0.35.0"), update("ruff", ">=0.1", "0.2")];
    let written = update_manifest(project, &updates, true).expect("a project");
    let deps = list_dependencies(&written).expect("a project");
    let found: Vec<(&str, &str, DepType)> = deps
        .iter()
        .map(|d| (d.name.as_str(), d.current_version.as_str(), d.dep_type))
        .collect();
    assert_eq!(
        found,
        vec![("uvicorn", ">=0.35.0", DepType::Optional), ("ruff", ">=0.2", DepType::Dev)]
    );
}
