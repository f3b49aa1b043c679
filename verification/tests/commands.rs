use ruckup::cli::{Cli, Commands};
use ruckup::commands::{
    check_section, count_candidates, filtered, keys_hint, list_section, manifest_heading, nothing_detected,
    nothing_to_report, report_base, report_candidates, report_done, report_entry,
    report_not_opened, report_progress, report_status, report_written, tally,
    update_result, update_section, update_step, UpdateStep,
};
use ruckup::console::{Run, Style};
use ruckup::detect::{detect_plugins, plugin_label, AnyPlugin};
use ruckup::plugin::{DepType, Dependency, Directory, PeerConflict, Plugin};
use ruckup::plugins::{docker, requirements};

const NOTHING: &str = "No supported dependency files detected in the current directory.";

fn plain(runs: &[Run]) -> String {
    runs.iter().map(|run| run.text.as_str()).collect()
}

fn directory(files: &[&str]) -> Directory {
    Directory {
        files: files.iter().map(|f| f.to_string()).collect(),
        folders: Vec::new(),
        workflows: Vec::new(),
        pyproject: None,
    }
}

fn only(name: &str) -> Option<Vec<String>> {
    Some(vec![name.to_string()])
}

fn dep(name: &str, current: &str, latest: Option<&str>) -> Dependency {
    let mut dep = Dependency::new(name.to_string(), current.to_string(), DepType::Normal);
    dep.latest_version = latest.map(|v| v.to_string());
    dep
}

#[test]
fn list_detects_docker_manifests() {
    let dir = directory(&["Dockerfile.dev", "compose.yml"]);
    let plugins = detect_plugins(&dir, &only("docker"));
    assert_eq!(plugins, vec![AnyPlugin::Docker]);
    let mut deps = docker::list_dependencies("Dockerfile.dev", "FROM node:20-alpine AS ui\n");
    deps.extend(docker::list_dependencies(
        "compose.yml",
        "services:\n  db:\n    image: postgres:16.4\n",
    ));
    let heading = plain(&manifest_heading(&plugin_label(plugins[0], &dir, "")));
    let shown = heading + &plain(&list_section(&deps));
    assert!(shown.contains("docker (Dockerfile.dev, compose.yml)"));
    assert!(shown.contains("node"));
    assert!(shown.contains("postgres"));
}

#[test]
fn list_detects_requirements_txt() {
    let dir = directory(&["requirements.txt"]);
    let plugins = detect_plugins(&dir, &only("requirements"));
    assert_eq!(plugins, vec![AnyPlugin::Requirements]);
    let deps = requirements::parse_requirements("requests>=2.31\npytest==8.3.5\n");
    let heading = plain(&manifest_heading(&plugin_label(plugins[0], &dir, "")));
    let shown = heading + &plain(&list_section(&deps));
    assert!(shown.contains("requirements.txt"));
    assert!(shown.contains("requests"));
    assert!(shown.contains("pytest"));
}

#[test]
fn default_check_in_empty_directory_reports_no_supported_files() {
    let cli = Cli { command: None, only: None, filter: None };
    assert!(detect_plugins(&directory(&[]), &cli.only).is_empty());
    assert!(matches!(cli.into_command(), Commands::Check));
    assert!(plain(&nothing_detected()).contains(NOTHING));
}

#[test]
fn check_with_only_and_filter_in_empty_directory_is_graceful() {
    assert!(detect_plugins(&directory(&[]), &only("cargo")).is_empty());
    assert!(filtered(&Vec::new(), &only("serde")).is_empty());
    assert!(plain(&nothing_detected()).contains(NOTHING));
}

#[test]
fn list_with_only_option_in_empty_directory_is_graceful() {
    assert!(detect_plugins(&directory(&[]), &only("requirements")).is_empty());
    assert!(plain(&nothing_detected()).contains(NOTHING));
}

#[test]
fn update_all_in_empty_directory_is_graceful() {
    assert!(detect_plugins(&directory(&[]), &None).is_empty());
    assert!(matches!(update_step(&Vec::new(), true), UpdateStep::Skip));
    assert!(plain(&nothing_detected()).contains(NOTHING));
}

#[test]
fn report_in_empty_directory_is_graceful() {
    assert!(detect_plugins(&directory(&[]), &None).is_empty());
    assert!(plain(&nothing_detected()).contains(NOTHING));
}

#[test]
fn plugins_go_by_other_names_too() {
    let mut dir = directory(&["Cargo.toml", "package.json"]);
    dir.workflows.push("ci.yml".to_string());
    assert_eq!(detect_plugins(&dir, &only("CARGO")), vec![AnyPlugin::Cargo]);
    assert_eq!(detect_plugins(&dir, &only("yarn")), vec![AnyPlugin::Npm]);
    assert_eq!(detect_plugins(&dir, &only("actions")), vec![AnyPlugin::GithubActions]);
    assert_eq!(
        detect_plugins(&dir, &None),
        vec![AnyPlugin::Cargo, AnyPlugin::GithubActions, AnyPlugin::Npm]
    );
    assert_eq!(plugin_label(AnyPlugin::Cargo, &dir, "sub"), "Cargo (Cargo.toml) [sub]");
    assert_eq!(AnyPlugin::Requirements.file_name(), "requirements.txt");
}

#[test]
fn python_projects_are_told_by_their_tables() {
    let mut dir = directory(&["pyproject.toml"]);
    dir.pyproject = Some("[project]\ndependencies = []\n".to_string());
    assert_eq!(detect_plugins(&dir, &None), vec![AnyPlugin::Pyproject]);
    dir.pyproject = Some("[tool.black]\n".to_string());
    assert!(detect_plugins(&dir, &None).is_empty());
    dir.pyproject = Some("[tool.uv]\ndev-dependencies = []\n".to_string());
    assert_eq!(detect_plugins(&dir, &None), vec![AnyPlugin::Pyproject]);
    dir.pyproject = Some("[dependency-groups]\ndev = [\"ruff>=0.1\"]\n".to_string());
    assert_eq!(detect_plugins(&dir, &None), vec![AnyPlugin::Pyproject]);
    dir.pyproject = Some("[project.optional-dependencies]\n".to_string());
    assert_eq!(detect_plugins(&dir, &None), vec![AnyPlugin::Pyproject]);
    dir.pyproject = Some("[project".to_string());
    assert!(detect_plugins(&dir, &None).is_empty());
}

#[test]
fn a_check_shows_its_updates() {
    let mut plugin = dep("plugin", "1.0.0", Some("2.0.0"));
    plugin.dep_type = DepType::Dev;
    let mut react = dep("react", "^17.0.0", Some("18.0.0"));
    react.held_back_by.push(PeerConflict {
        blocker: "plugin".to_string(),
        blocker_version: "2.0.0".to_string(),
        required_range: "^17".to_string(),
    });
    let mut lost = dep("lost", "1", None);
    lost.check_failed = true;
    let checked = tally(&vec![plugin, react, lost], &None);
    assert_eq!((checked.total, checked.failed, checked.deps.len()), (3, 1, 3));
    let runs = check_section(&checked);
    assert_eq!(
        plain(&runs),
        "  2 updates available (1 up to date):\n\n  dependencies:\n    react   ^17.0.0  →  18.0.0  ⚠ held back by plugin\n  dev-dependencies:\n    plugin  1.0.0    →  2.0.0  ⚑ blocks react\n  ⚠ peer dependency conflicts:\n    plugin@2.0.0 requires react@^17\n      → conflicts with react@18.0.0\n\n  ⚠ Checked 2/3 dependencies successfully (1 failed lookups).\n\n"
    );
    assert_eq!(runs[1].style, Style::Yellow);
    let update = plain(&update_section("npm", &checked));
    assert!(update.starts_with(
        "── npm ──\n  ⚠ Checked 2/3 dependencies successfully (1 failed lookups).\n  2 updates"
    ));
}

#[test]
fn a_check_without_updates_is_short() {
    let checked = tally(&vec![dep("a", "1", None)], &None);
    assert_eq!(plain(&check_section(&checked)), "  ✓ 1 dependencies are up to date.\n");
    let checked = tally(&vec![dep("a", "1", None)], &only("b"));
    assert_eq!(plain(&check_section(&checked)), "  No dependencies found.\n");
}

#[test]
fn a_list_is_grouped() {
    let mut build = dep("cc", "1", None);
    build.dep_type = DepType::Build;
    assert_eq!(
        plain(&list_section(&vec![build, dep("serde", "1.0", None)])),
        "  dependencies:\n    serde  1.0\n  build-dependencies:\n    cc     1\n\n"
    );
    assert_eq!(plain(&list_section(&Vec::new())), "  No dependencies found.\n\n");
}

#[test]
fn filters_look_into_names() {
    let items = vec![dep("serde_json", "1", None), dep("tokio", "1", None)];
    assert_eq!(filtered(&items, &only("serde")).len(), 1);
    assert_eq!(filtered(&items, &only("")).len(), 2);
    assert_eq!(filtered(&items, &Some(Vec::new())).len(), 0);
    assert_eq!(filtered(&items, &None).len(), 2);
}

#[test]
fn updates_are_all_or_selected() {
    let items = vec![dep("a", "1", Some("2")), dep("b", "1", None)];
    assert!(matches!(update_step(&items, true), UpdateStep::Apply(names) if names == vec!["a"]));
    assert!(matches!(update_step(&items, false), UpdateStep::Ask(deps) if deps.len() == 1));
    assert_eq!(plain(&update_result(&vec!["a".to_string()])), "  ✓ Updated 1 dependencies.\n\n");
    assert_eq!(plain(&update_result(&Vec::new())), "  No dependencies selected.\n\n");
    assert!(plain(&keys_hint()).ends_with("Enter confirm\n\n"));
}

#[test]
fn reports_take_what_has_updates() {
    let first = tally(&vec![dep("a", "1", Some("2")), dep("b", "1", None)], &None);
    let second = tally(&vec![dep("c", "1", None)], &None);
    let labels = vec!["one".to_string(), "two".to_string()];
    let found = report_candidates(&labels, &vec![first, second]);
    assert_eq!(found.len(), 1);
    assert_eq!(found[0].0, "one");
    assert_eq!(found[0].1.len(), 1);
    assert_eq!(count_candidates(&found), Some(1));
    let items = vec![dep("a", "1", Some("2")), dep("ab", "1", Some("2"))];
    assert_eq!(report_entry(&items, &only("b")).len(), 1);
}

#[test]
fn reports_say_what_they_do() {
    assert_eq!(plain(&manifest_heading("x")), "── x ──\n");
    assert_eq!(manifest_heading("x")[0].style, Style::Bold);
    assert_eq!(plain(&report_progress(&Vec::new())), "  ✓ No upgrade candidates for report.\n\n");
    assert_eq!(
        plain(&report_progress(&vec![dep("a", "1", None)])),
        "  • Building detailed report for 1 dependencies...\n"
    );
    assert_eq!(plain(&report_done()), "  ✓ Done.\n\n");
    assert_eq!(
        plain(&nothing_to_report()),
        "No upgradable dependencies found, so no report was generated.\n"
    );
    assert_eq!(
        plain(&report_written(2, &vec!["a.html".to_string()])),
        "✓ Generated report for 2 upgrade candidates:\n  - a.html\n"
    );
    assert_eq!(
        plain(&report_not_opened()),
        "⚠ Could not auto-open report. Open one of the paths above manually.\n"
    );
    assert_eq!(report_base(17), "ruckup-update-report-17");
    assert_eq!(
        plain(&report_status(0, None, false)),
        "⚠ no upgrade candidates available for report"
    );
    assert_eq!(
        plain(&report_status(2, Some("a"), false)),
        "⚠ generated upgrade report (2 candidates): a (auto-open failed)"
    );
    assert_eq!(plain(&report_status(2, None, false)), "✓ generated upgrade report (2 candidates)");
}

#[test]
fn groups_have_two_names() {
    let names: Vec<(&str, &str)> = [DepType::Normal, DepType::Dev, DepType::Build, DepType::Optional]
        .iter()
        .map(|t| (t.label(), t.short_label()))
        .collect();
    assert_eq!(
        names,
        vec![
            ("dependencies", "prod"),
            ("dev-dependencies", "dev"),
            ("build-dependencies", "build"),
            ("optional", "opt"),
        ]
    );
}
