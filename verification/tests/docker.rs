use std::cmp::Ordering;

use ruckup::plugin::{DepType, Dependency};
use ruckup::plugins::docker::{
    docker_hub_repo, latest_tag, list_dependencies, manifest_files, needs_lookup, next_page,
    parse_compose_occurrence, parse_dockerfile_occurrence, parse_image_reference, parse_line,
    parse_version_tag, resolve, rewrite_line, select_newer_tag, strip_quotes, tags_url,
    update_manifest, version_cmp,
};

fn update(name: &str, current: &str, latest: &str, dep_type: DepType) -> Dependency {
    let mut dep = Dependency::new(name.to_string(), current.to_string(), dep_type);
    dep.latest_version = Some(latest.to_string());
    dep
}

#[test]
fn parse_image_reference_requires_tagged_images() {
    let parsed = parse_image_reference("node:20-alpine").expect("failed to parse image");
    assert_eq!(parsed.name, "node");
    assert_eq!(parsed.current_version, "20-alpine");
    assert!(parse_image_reference("python").is_none());
    assert!(parse_image_reference("python@sha256:deadbeef").is_none());
}

#[test]
fn parse_dockerfile_occurrence_handles_platform_and_alias() {
    let parsed = parse_dockerfile_occurrence(
        "FROM --platform=$BUILDPLATFORM rust:1.86.0-alpine AS builder",
    )
    .expect("failed to parse Dockerfile line");
    assert_eq!(parsed.name, "rust");
    assert_eq!(parsed.current_version, "1.86.0-alpine");
    assert_eq!(parsed.dep_type, DepType::Build);
}

#[test]
fn parse_compose_occurrence_handles_quotes_and_comments() {
    let parsed = parse_compose_occurrence("    image: \"postgres:16.4\" # db image")
        .expect("failed to parse compose image line");
    assert_eq!(parsed.name, "postgres");
    assert_eq!(parsed.current_version, "16.4");
    assert_eq!(parsed.dep_type, DepType::Normal);
}

#[test]
fn docker_hub_repo_normalizes_official_images() {
    assert_eq!(docker_hub_repo("python").as_deref(), Some("library/python"));
    assert_eq!(
        docker_hub_repo("docker.io/library/python").as_deref(),
        Some("library/python")
    );
    assert!(docker_hub_repo("ghcr.io/acme/app").is_none());
}

#[test]
fn tag_selection_preserves_suffix_family() {
    let tags = vec![
        "19-alpine".to_string(),
        "20-alpine".to_string(),
        "20.1-alpine".to_string(),
        "21-bullseye".to_string(),
    ];
    assert_eq!(
        select_newer_tag("18-alpine", &tags).as_deref(),
        Some("20.1-alpine")
    );
    assert!(select_newer_tag("latest", &tags).is_none());
}

#[test]
fn version_cmp_pads_missing_parts() {
    assert_eq!(version_cmp(&[1, 0], &[1]), Ordering::Equal);
    assert_eq!(version_cmp(&[1, 2], &[1, 1, 9]), Ordering::Greater);
}

#[test]
fn version_cmp_can_be_less() {
    assert_eq!(version_cmp(&[1, 1, 9], &[1, 2]), Ordering::Less);
    assert_eq!(version_cmp(&[], &[0, 0]), Ordering::Equal);
}

#[test]
fn places_are_in_bytes() {
    let line = "\u{a0}FROM é:1 AS x";
    let parsed = parse_line(line, DepType::Build).expect("an image");
    assert_eq!(parsed.name, "é");
    assert_eq!(&line[parsed.replace_start..parsed.replace_end], "é:1");
}

#[test]
fn other_references_have_no_tag() {
    assert!(parse_image_reference("registry:5000/app").is_none());
    assert!(parse_image_reference("app:${TAG}").is_none());
    assert!(parse_image_reference(":1").is_none());
    let parsed = parse_image_reference(" 'registry:5000/app:2' ").expect("an image");
    assert_eq!(parsed.name, "registry:5000/app");
    assert_eq!(parsed.current_version, "2");
    assert_eq!(strip_quotes("\"a'"), "\"a'");
    assert!(parse_dockerfile_occurrence("# FROM a:1").is_none());
    assert!(parse_dockerfile_occurrence("FROM scratch").is_none());
    assert!(parse_compose_occurrence("  image: \"a:1").is_none());
    assert!(parse_line("FROM a:1", DepType::Dev).is_none());
}

#[test]
fn version_tags_have_parts_and_a_suffix() {
    let (parts, suffix) = parse_version_tag("v1.20-alpine").expect("a version");
    assert_eq!(parts, vec![1, 20]);
    assert_eq!(suffix, "-alpine");
    assert!(parse_version_tag("alpine").is_none());
    assert!(parse_version_tag("99999999999999999999").is_none());
}

#[test]
fn selected_tag_is_final() {
    let tags = vec!["2".to_string(), "10".to_string(), "10.0".to_string(), "9".to_string()];
    let chosen = latest_tag("1", &tags);
    assert_eq!(chosen, "10");
    assert!(select_newer_tag(&chosen, &tags).is_none());
    assert_eq!(latest_tag("11", &tags), "11");
}

#[test]
fn rewritten_image_lines_read_back() {
    let dep = update("rust", "1.86.0-alpine", "1.87.0-alpine", DepType::Build);
    let line = "  FROM --platform=$BUILDPLATFORM rust:1.86.0-alpine AS builder";
    let written = rewrite_line(line, &dep, DepType::Build);
    assert_eq!(
        written,
        "  FROM --platform=$BUILDPLATFORM rust:1.87.0-alpine AS builder"
    );
    let parsed = parse_line(&written, DepType::Build).expect("an image");
    assert_eq!(parsed.name, "rust");
    assert_eq!(parsed.current_version, "1.87.0-alpine");

    let dep = update("postgres", "16.4", "16.5", DepType::Normal);
    let written = rewrite_line("    image: 'postgres:16.4' # db", &dep, DepType::Normal);
    assert_eq!(written, "    image: 'postgres:16.5' # db");
    let parsed = parse_line(&written, DepType::Normal).expect("an image");
    assert_eq!(parsed.current_version, "16.5");
}

#[test]
fn images_in_flags_are_not_told_apart() {
    let dep = update("a", "1", "2", DepType::Build);
    assert_eq!(
        rewrite_line("FROM --x=a:1 a:1", &dep, DepType::Build),
        "FROM --x=a:2 a:1"
    );
}

#[test]
fn manifests_are_updated_line_by_line() {
    let updates = vec![
        update("node", "20", "22", DepType::Build),
        update("db", "1", "2", DepType::Normal),
    ];
    let content = "FROM node:20 AS a\nRUN x\nFROM db:1\n";
    assert_eq!(
        update_manifest(content, &updates, DepType::Build),
        "FROM node:22 AS a\nRUN x\nFROM db:1\n"
    );
    let deps = list_dependencies("Dockerfile", &update_manifest(content, &updates, DepType::Build));
    let found: Vec<(&str, &str)> = deps
        .iter()
        .map(|d| (d.name.as_str(), d.current_version.as_str()))
        .collect();
    assert_eq!(found, vec![("node", "22"), ("db", "1")]);
    let untouched = "FROM node:21\nFROM x";
    assert_eq!(update_manifest(untouched, &updates, DepType::Build), untouched);
}

#[test]
fn manifests_list_their_images() {
    let deps = list_dependencies("Dockerfile.dev", "FROM node:20-alpine AS ui\n");
    assert_eq!(deps.len(), 1);
    assert_eq!(deps[0].name, "node");
    assert_eq!(deps[0].current_version, "20-alpine");
    assert_eq!(deps[0].dep_type, DepType::Build);
    let deps = list_dependencies("compose.yml", "services:\n  db:\n    image: postgres:16.4\n");
    assert_eq!(deps.len(), 1);
    assert_eq!(deps[0].dep_type, DepType::Normal);
    let files = vec![
        "compose.yaml".to_string(),
        "Dockerfile".to_string(),
        "Dockerfiles".to_string(),
        "Dockerfile.a".to_string(),
    ];
    assert_eq!(manifest_files(&files), vec!["Dockerfile", "Dockerfile.a", "compose.yaml"]);
}

#[test]
fn image_lookups_settle() {
    let dep = Dependency::new("a".to_string(), "latest".to_string(), DepType::Build);
    assert!(!needs_lookup(&dep));
    let dep = resolve(dep, None);
    assert!(dep.satisfied);
    assert_eq!(dep.latest_version.as_deref(), Some("latest"));
    assert!(!dep.check_failed);

    let dep = Dependency::new("a".to_string(), "1".to_string(), DepType::Build);
    assert!(needs_lookup(&dep));
    assert!(resolve(dep, None).check_failed);
    let dep = Dependency::new("a".to_string(), "1".to_string(), DepType::Build);
    let dep = resolve(dep, Some("2".to_string()));
    assert!(dep.has_update());
}

#[test]
fn tag_pages_are_bounded() {
    assert_eq!(
        tags_url("library/node"),
        "https://hub.docker.com/v2/repositories/library/node/tags?page_size=100"
    );
    assert_eq!(next_page(4, Some("x".to_string())).as_deref(), Some("x"));
    assert_eq!(next_page(5, Some("x".to_string())), None);
    assert_eq!(next_page(1, None), None);
}
