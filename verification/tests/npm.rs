use ruckup::plugin::{DepType, Dependency, Directory, Plugin};
use ruckup::plugins::npm::{
    are_peers_readable, hold_back, list_dependencies, package_url, required_peers, resolve,
    resolve_peers, settle, update_manifest, JsPackageManager, NpmPlugin, Release,
};
use ruckup::ranges::is_readable;

const MANIFEST: &str = "{
  \"name\": \"x\",
  \"dependencies\": {
    \"react\": \"^17.0.0\",
    \"local\": 3
  },
  \"devDependencies\": {
    \"vite\": \"~4.1.0\"
  },
  \"optionalDependencies\": {
    \"fsevents\": \"2.0.0\"
  }
}
";

fn dep(name: &str, current: &str, latest: Option<&str>) -> Dependency {
    let mut dep = Dependency::new(name.to_string(), current.to_string(), DepType::Normal);
    dep.latest_version = latest.map(|v| v.to_string());
    dep
}

fn release(version: &str) -> Option<Release> {
    Some(Release { version: version.to_string(), peers: Vec::new() })
}

fn directory(files: &[&str]) -> Directory {
    Directory {
        files: files.iter().map(|f| f.to_string()).collect(),
        folders: Vec::new(),
        workflows: Vec::new(),
        pyproject: None,
    }
}

#[test]
fn packages_are_listed() {
    let deps = list_dependencies(MANIFEST).expect("a manifest");
    let found: Vec<(&str, &str, DepType)> = deps
        .iter()
        .map(|d| (d.name.as_str(), d.current_version.as_str(), d.dep_type))
        .collect();
    assert_eq!(
        found,
        vec![
            ("react", "^17.0.0", DepType::Normal),
            ("vite", "~4.1.0", DepType::Dev),
            ("fsevents", "2.0.0", DepType::Optional),
        ]
    );
    assert!(list_dependencies("{").is_err());
}

#[test]
fn packages_are_updated() {
    let mut vite = dep("vite", "~4.1.0", Some("5.0.0"));
    vite.dep_type = DepType::Dev;
    let mut build = dep("react", "^17.0.0", Some("99.0.0"));
    build.dep_type = DepType::Build;
    let updates = vec![dep("react", "^17.0.0", Some("18.2.0")), vite, build];
    let written = update_manifest(MANIFEST, &updates, true).expect("a manifest");
    let deps = list_dependencies(&written).expect("a manifest");
    assert_eq!(deps[0].current_version, "^18.2.0");
    assert_eq!(deps[1].current_version, "~5.0.0");
    assert_eq!(deps[2].current_version, "2.0.0");
    assert!(written.contains("\"local\": 3"));
    assert!(written.ends_with("}\n"));
    let pinned = update_manifest(MANIFEST, &updates, false).expect("a manifest");
    assert_eq!(list_dependencies(&pinned).expect("a manifest")[0].current_version, "18.2.0");
    assert!(update_manifest("{", &updates, true).is_err());
}

#[test]
fn package_lookups_settle() {
    assert!(resolve(dep("a", "^1.0.0", None), release("1.5.0")).satisfied);
    assert!(resolve(dep("a", "^1.0.0", None), release("2.0.0")).has_update());
    assert!(resolve(dep("a", "latest-ish!", None), release("2.0.0")).has_update());
    assert!(resolve(dep("a", "odd", None), release("odd")).satisfied);
    assert!(resolve(dep("a", "1", None), None).check_failed);
    assert!(settle(dep("a", "x", None), release("1.0.0"), Some(true)).satisfied);
    assert!(!settle(dep("a", "x", None), release("1.0.0"), None).satisfied);
}

#[test]
fn ranges_that_can_be_read() {
    assert!(is_readable("^1.2.3 || >=2.0.0 <3"));
    assert!(is_readable("*"));
    assert!(is_readable("workspace:*"));
    assert!(!is_readable("=*"));
    assert!(!is_readable(">=1 || ~x"));
    assert!(!is_readable("~1.x.2"));
}

#[test]
fn peers_hold_packages_back() {
    let mut plugin = dep("plugin", "1.0.0", Some("2.0.0"));
    plugin.peer_deps = vec![("react".to_string(), "^17.0.0".to_string())];
    let items = vec![plugin, dep("react", "^17.0.0", Some("18.0.0"))];
    assert!(are_peers_readable(&items));
    let settled = resolve_peers(&items);
    assert!(settled[0].held_back_by.is_empty());
    assert_eq!(settled[1].held_back_by.len(), 1);
    assert_eq!(settled[1].held_back_by[0].blocker, "plugin");
    assert_eq!(settled[1].held_back_by[0].blocker_version, "2.0.0");
    assert_eq!(settled[1].held_back_by[0].required_range, "^17.0.0");

    let free = hold_back(&items, &vec![vec![true], Vec::new()]);
    assert!(free[1].held_back_by.is_empty());
    let held = hold_back(&items, &vec![vec![false], Vec::new()]);
    assert_eq!(held[1].held_back_by.len(), 1);
}

#[test]
fn optional_peers_do_not_count() {
    let peers = vec![
        ("a".to_string(), "1".to_string()),
        ("b".to_string(), "2".to_string()),
    ];
    let required = required_peers(&peers, &vec!["a".to_string()]);
    assert_eq!(required, vec![("b".to_string(), "2".to_string())]);
    assert_eq!(package_url("react"), "https://registry.npmjs.org/react");
}

#[test]
fn lock_files_name_the_package_manager() {
    let found = |files: &[&str]| JsPackageManager::detect(&directory(files)).map(|pm| pm.name());
    assert_eq!(found(&["package.json", "yarn.lock", "pnpm-lock.yaml"]), Some("pnpm"));
    assert_eq!(found(&["package.json", "yarn.lock"]), Some("yarn"));
    assert_eq!(found(&["package.json"]), Some("npm"));
    assert_eq!(found(&[]), None);
    assert_eq!(JsPackageManager::Npm.lock_file(), "package-lock.json");
    let plugin = NpmPlugin::new();
    assert_eq!(
        plugin.display_name(&directory(&["package.json", "yarn.lock"])),
        "yarn (package.json + yarn.lock)"
    );
    assert_eq!(plugin.display_name(&directory(&["package.json"])), "npm (package.json)");
}
