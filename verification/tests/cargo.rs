use ruckup::documents::has_short_quotes;
use ruckup::plugin::{DepType, Dependency};
use ruckup::plugins::cargo::{
    crate_url, dependencies_url, list_dependencies, next_version, resolve, settle, update_manifest,
    without_build,
};

const MANIFEST: &str = "[package]
name = \"x\"

[dependencies]
serde = \"1.0\" # keep
tokio = { version = \"^1.2\", features = [\"rt\"] }
local = { path = \"../local\" }

[dependencies.clap]
version = \"4\"

[dev-dependencies]
tempfile = \"3\"

[build-dependencies]
cc = \"1\"
";

fn update(name: &str, latest: &str, dep_type: DepType) -> Dependency {
    let mut dep = Dependency::new(name.to_string(), String::new(), dep_type);
    dep.latest_version = Some(latest.to_string());
    dep
}

#[test]
fn manifests_list_their_crates() {
    let deps = list_dependencies(MANIFEST).expect("a manifest");
    let mut found: Vec<(&str, &str, DepType)> = deps
        .iter()
        .map(|d| (d.name.as_str(), d.current_version.as_str(), d.dep_type))
        .collect();
    found[..3].sort_by_key(|entry| entry.0);
    assert_eq!(
        found,
        vec![
            ("clap", "4", DepType::Normal),
            ("serde", "1.0", DepType::Normal),
            ("tokio", "^1.2", DepType::Normal),
            ("tempfile", "3", DepType::Dev),
            ("cc", "1", DepType::Build),
        ]
    );
    assert!(list_dependencies("[dependencies").is_err());
    assert!(list_dependencies("").expect("a manifest").is_empty());
}

#[test]
fn crate_manifests_are_updated() {
    let updates = vec![
        update("serde", "2.0.0", DepType::Normal),
        update("tokio", "2.1.0", DepType::Normal),
        update("clap", "5.0.0", DepType::Normal),
        update("local", "9.0.0", DepType::Normal),
        update("tempfile", "4.0.0", DepType::Dev),
        update("missing", "1.0.0", DepType::Build),
    ];
    let written = update_manifest(MANIFEST, &updates, true).expect("a manifest");
    assert!(written.contains("tokio = { version = \"^2.1.0\", features = [\"rt\"] }"));
    assert!(written.contains("local = { path = \"../local\" }"));
    let deps = list_dependencies(&written).expect("a manifest");
    let version = |name: &str| {
        deps.iter()
            .find(|d| d.name == name)
            .map(|d| d.current_version.clone())
            .expect("a crate")
    };
    assert_eq!(version("serde"), "2.0.0");
    assert_eq!(version("tokio"), "^2.1.0");
    assert_eq!(version("clap"), "5.0.0");
    assert_eq!(version("tempfile"), "4.0.0");
    assert_eq!(version("cc"), "1");
    let plain = update_manifest(MANIFEST, &updates, false).expect("a manifest");
    assert!(plain.contains("tokio = { version = \"2.1.0\", features = [\"rt\"] }"));
    assert!(update_manifest("[dependencies", &updates, true).is_err());
}

#[test]
fn inline_sections_are_updated() {
    let manifest = "answer = 42 # keep\ndependencies = { serde = \"^1.0\", tokio = { version = \"1\" } }\n";
    let updates = vec![
        update("serde", "2.0.0", DepType::Normal),
        update("tokio", "2.1.0", DepType::Normal),
    ];
    let written = update_manifest(manifest, &updates, true).expect("a manifest");
    assert!(written.starts_with("answer = 42 # keep\n"));
    let deps = list_dependencies(&written).expect("a manifest");
    let found: Vec<(&str, &str)> = deps
        .iter()
        .map(|d| (d.name.as_str(), d.current_version.as_str()))
        .collect();
    assert_eq!(found, vec![("serde", "^2.0.0"), ("tokio", "2.1.0")]);
}

#[test]
fn a_requirement_without_a_digit_has_no_operator() {
    assert_eq!(next_version("*", "1.0.0", true), "1.0.0");
    assert_eq!(next_version("", "1.0.0", true), "1.0.0");
    assert_eq!(next_version("^1", "2.0.0", true), "^2.0.0");
    assert_eq!(next_version(">= 1, <2", "2.0.0", true), ">= 2.0.0");
}

/// The text as a TOML string with every character escaped.
fn escaped(text: &str) -> String {
    text.chars().map(|c| format!("\\U{:08X}", c as u32)).collect()
}

#[test]
fn odd_operators_are_written_and_read_back() {
    let odd = [
        "\t^", "\n^", "\r\n", "\\", "'", "\"", "''\"\"", "\u{7f}", "\u{0}", "é", "\u{feff}",
        "'''\"\"\"", "\n''\\", "\n'''\\", "\n\"\"\"\"\\\r", "\\\n  ^", "\"\"'", "'\"\"", "",
    ];
    for prefix in odd {
        let old = escaped(&format!("{prefix}1"));
        let forms = [
            format!("[dependencies]\nserde = \"{old}\"\n"),
            format!("[dependencies]\nserde = {{ version = \"{old}\", optional = true }}\n"),
            format!("[dependencies.serde]\nversion = \"{old}\"\n"),
            format!("dependencies = {{ serde = \"{old}\" }}\n"),
        ];
        for manifest in forms {
            let updates = vec![update("serde", "2.0.0", DepType::Normal)];
            let written = update_manifest(&manifest, &updates, true).expect("a manifest");
            let deps = list_dependencies(&written).expect("a manifest");
            assert_eq!(deps[0].current_version, format!("{prefix}2.0.0"));
        }
    }
}

#[test]
fn too_many_quotes_in_a_row_are_refused() {
    let updates = vec![update("serde", "2.0.0", DepType::Normal)];
    for quote in ["'", "\""] {
        let write = |n: usize| {
            let old = escaped(&quote.repeat(n));
            update_manifest(&format!("[dependencies]\nserde = \"{old}1\"\n"), &updates, true)
        };
        assert!(write(256).is_err());
        let written = write(255).expect("a manifest");
        let deps = list_dependencies(&written).expect("a manifest");
        assert_eq!(deps[0].current_version, format!("{}2.0.0", quote.repeat(255)));
    }
    assert!(has_short_quotes(&"'".repeat(255)));
    assert!(!has_short_quotes(&format!("a{}b", "\"".repeat(256))));
    assert!(has_short_quotes(&"'\"".repeat(300)));
}

#[test]
fn crate_manifests_without_updates_keep_their_layout() {
    assert_eq!(update_manifest(MANIFEST, &Vec::new(), true).as_deref(), Ok(MANIFEST));
}

#[test]
fn crate_lookups_settle() {
    let settled = |current: &str, latest: &str| {
        let dep = Dependency::new("c".to_string(), current.to_string(), DepType::Normal);
        resolve(dep, Some(latest.to_string()))
    };
    assert!(settled("1.0", "1.9.0").satisfied);
    assert!(settled("1.0", "2.0.0").has_update());
    assert!(settled("~1.2", "1.3.0").has_update());
    assert!(settled("nonsense!", "1.0.0").has_update());
    assert!(settled("odd", "odd").satisfied);
    let dep = settled("1.0", "1.9.0+build.1");
    assert_eq!(dep.latest_version.as_deref(), Some("1.9.0"));
    let dep = Dependency::new("c".to_string(), "1".to_string(), DepType::Normal);
    let dep = resolve(dep, None);
    assert!(dep.check_failed);
    assert!(!dep.has_update());
}

#[test]
fn crate_verdicts_are_taken() {
    let dep = Dependency::new("c".to_string(), "x".to_string(), DepType::Normal);
    assert!(settle(dep, Some("1.0.0".to_string()), Some(true)).satisfied);
    let dep = Dependency::new("c".to_string(), "x".to_string(), DepType::Normal);
    assert!(!settle(dep, Some("1.0.0".to_string()), Some(false)).satisfied);
    let dep = Dependency::new("c".to_string(), "x".to_string(), DepType::Normal);
    assert!(settle(dep, Some("x".to_string()), None).satisfied);
}

#[test]
fn crate_versions_are_written() {
    assert_eq!(next_version(">=1.2, <2", "3.0.0", true), ">=3.0.0");
    assert_eq!(next_version(">=1.2", "3.0.0", false), "3.0.0");
    assert_eq!(without_build("1.2.3+abc"), "1.2.3");
    assert_eq!(crate_url("serde"), "https://crates.io/api/v1/crates/serde");
    assert_eq!(
        dependencies_url("serde", "1.0.0"),
        "https://crates.io/api/v1/crates/serde/1.0.0/dependencies"
    );
}
