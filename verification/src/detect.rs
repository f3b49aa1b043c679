//! Which plugins look after a directory.
use vstd::prelude::*;
use vstd::string::*;
use crate::chars;
use crate::documents::toml_tree;
use crate::plugin::{Dir, Directory, Plugin, lemma_filtered};
use crate::plugins::cargo::CargoPlugin;
use crate::plugins::docker::{DockerPlugin, is_manifest};
use crate::plugins::github_actions::{GithubActionsPlugin, workflow_name};
use crate::plugins::npm::NpmPlugin;
use crate::plugins::pyproject::{PyprojectPlugin, declares};
use crate::plugins::requirements::RequirementsPlugin;
use crate::text;

verus! {

/// A plugin.
#[derive(Debug, Clone, Copy, PartialEq, Eq, Structural)]
pub enum AnyPlugin {
    Cargo,
    Docker,
    GithubActions,
    Npm,
    Pyproject,
    Requirements,
}

impl Plugin for AnyPlugin {
    open spec fn name_text(&self) -> Seq<char> {
        match self {
            AnyPlugin::Cargo => CargoPlugin.name_text(),
            AnyPlugin::Docker => DockerPlugin.name_text(),
            AnyPlugin::GithubActions => GithubActionsPlugin.name_text(),
            AnyPlugin::Npm => NpmPlugin.name_text(),
            AnyPlugin::Pyproject => PyprojectPlugin.name_text(),
            AnyPlugin::Requirements => RequirementsPlugin.name_text(),
        }
    }

    open spec fn file_text(&self) -> Seq<char> {
        match self {
            AnyPlugin::Cargo => CargoPlugin.file_text(),
            AnyPlugin::Docker => DockerPlugin.file_text(),
            AnyPlugin::GithubActions => GithubActionsPlugin.file_text(),
            AnyPlugin::Npm => NpmPlugin.file_text(),
            AnyPlugin::Pyproject => PyprojectPlugin.file_text(),
            AnyPlugin::Requirements => RequirementsPlugin.file_text(),
        }
    }

    open spec fn detected(&self, dir: Dir) -> bool {
        match self {
            AnyPlugin::Cargo => CargoPlugin.detected(dir),
            AnyPlugin::Docker => DockerPlugin.detected(dir),
            AnyPlugin::GithubActions => GithubActionsPlugin.detected(dir),
            AnyPlugin::Npm => NpmPlugin.detected(dir),
            AnyPlugin::Pyproject => PyprojectPlugin.detected(dir),
            AnyPlugin::Requirements => RequirementsPlugin.detected(dir),
        }
    }

    open spec fn display_text(&self, dir: Dir) -> Seq<char> {
        match self {
            AnyPlugin::Cargo => CargoPlugin.display_text(dir),
            AnyPlugin::Docker => DockerPlugin.display_text(dir),
            AnyPlugin::GithubActions => GithubActionsPlugin.display_text(dir),
            AnyPlugin::Npm => NpmPlugin.display_text(dir),
            AnyPlugin::Pyproject => PyprojectPlugin.display_text(dir),
            AnyPlugin::Requirements => RequirementsPlugin.display_text(dir),
        }
    }

    fn name(&self) -> (r: &'static str) {
        match self {
            AnyPlugin::Cargo => CargoPlugin.name(),
            AnyPlugin::Docker => DockerPlugin.name(),
            AnyPlugin::GithubActions => GithubActionsPlugin.name(),
            AnyPlugin::Npm => NpmPlugin.name(),
            AnyPlugin::Pyproject => PyprojectPlugin.name(),
            AnyPlugin::Requirements => RequirementsPlugin.name(),
        }
    }

    fn file_name(&self) -> (r: &'static str) {
        match self {
            AnyPlugin::Cargo => CargoPlugin.file_name(),
            AnyPlugin::Docker => DockerPlugin.file_name(),
            AnyPlugin::GithubActions => GithubActionsPlugin.file_name(),
            AnyPlugin::Npm => NpmPlugin.file_name(),
            AnyPlugin::Pyproject => PyprojectPlugin.file_name(),
            AnyPlugin::Requirements => RequirementsPlugin.file_name(),
        }
    }

    fn detect(&self, dir: &Directory) -> (r: bool) {
        match self {
            AnyPlugin::Cargo => CargoPlugin.detect(dir),
            AnyPlugin::Docker => DockerPlugin.detect(dir),
            AnyPlugin::GithubActions => GithubActionsPlugin.detect(dir),
            AnyPlugin::Npm => NpmPlugin.detect(dir),
            AnyPlugin::Pyproject => PyprojectPlugin.detect(dir),
            AnyPlugin::Requirements => RequirementsPlugin.detect(dir),
        }
    }

    fn display_name(&self, dir: &Directory) -> (r: String) {
        match self {
            AnyPlugin::Cargo => CargoPlugin.display_name(dir),
            AnyPlugin::Docker => DockerPlugin.display_name(dir),
            AnyPlugin::GithubActions => GithubActionsPlugin.display_name(dir),
            AnyPlugin::Npm => NpmPlugin.display_name(dir),
            AnyPlugin::Pyproject => PyprojectPlugin.display_name(dir),
            AnyPlugin::Requirements => RequirementsPlugin.display_name(dir),
        }
    }
}

/// All plugins, in the order in which they are asked.
pub open spec fn plugins() -> Seq<AnyPlugin> {
    seq![
        AnyPlugin::Cargo,
        AnyPlugin::Docker,
        AnyPlugin::GithubActions,
        AnyPlugin::Npm,
        AnyPlugin::Pyproject,
        AnyPlugin::Requirements,
    ]
}

pub fn all_plugins() -> (r: Vec<AnyPlugin>)
    ensures
        r@ == plugins(),
{
    let mut out: Vec<AnyPlugin> = Vec::new();
    out.push(AnyPlugin::Cargo);
    out.push(AnyPlugin::Docker);
    out.push(AnyPlugin::GithubActions);
    out.push(AnyPlugin::Npm);
    out.push(AnyPlugin::Pyproject);
    out.push(AnyPlugin::Requirements);
    assert(out@ =~= plugins());
    out
}

/// A name given on the command line means the plugin, in any case: its own name,
/// or that of another tool which works on its files.
pub open spec fn means(given: Seq<char>, plugin: AnyPlugin) -> bool {
    let word = chars::lower(given);
    ||| word == chars::lower(plugin.name_text())
    ||| word == "actions"@ && plugin.name_text() == "github-actions"@
    ||| word == "pnpm"@ && plugin.name_text() == "npm"@
    ||| word == "yarn"@ && plugin.name_text() == "npm"@
}

/// One of the names means the plugin.
pub open spec fn named(names: Seq<Seq<char>>, plugin: AnyPlugin) -> bool {
    exists|i: int| 0 <= i < names.len() && means(#[trigger] names[i], plugin)
}

/// The plugin is asked for: all are where no names are given.
pub open spec fn chosen(only: Option<Seq<Seq<char>>>, plugin: AnyPlugin) -> bool {
    match only {
        Some(names) => named(names, plugin),
        None => true,
    }
}

/// The names given on the command line.
pub open spec fn given(only: Option<Vec<String>>) -> Option<Seq<Seq<char>>> {
    match only {
        Some(names) => Some(chars::views(names@)),
        None => None,
    }
}

fn is_meant(given: &str, plugin: AnyPlugin) -> (r: bool)
    ensures
        r == means(given@, plugin),
{
    let word: String = text::lower(given);
    let word: &str = word.as_str();
    let name: &str = plugin.name();
    text::eq(word, text::lower(name).as_str()) || (text::eq(word, "actions") && text::eq(
        name,
        "github-actions",
    )) || (text::eq(word, "pnpm") && text::eq(name, "npm")) || (text::eq(word, "yarn") && text::eq(
        name,
        "npm",
    ))
}

fn is_chosen(only: &Option<Vec<String>>, plugin: AnyPlugin) -> (r: bool)
    ensures
        r == chosen(given(*only), plugin),
{
    match only {
        Some(names) => {
            let ghost all = chars::views(names@);
            for i in 0..names.len()
                invariant
                    all == chars::views(names@),
                    given(*only) == Some(all),
                    forall|j: int| 0 <= j < i ==> !means(#[trigger] all[j], plugin),
            {
                if is_meant(names[i].as_str(), plugin) {
                    assert(means(all[i as int], plugin));
                    return true;
                }
            }
            false
        },
        None => true,
    }
}

/// The plugin is asked for and finds its manifest in the directory.
pub open spec fn active(dir: Dir, only: Option<Seq<Seq<char>>>) -> spec_fn(AnyPlugin) -> bool {
    |p: AnyPlugin| p.detected(dir) && chosen(only, p)
}

/// The plugins that are asked for and find their manifests in a directory.
pub fn detect_plugins(dir: &Directory, only: &Option<Vec<String>>) -> (r: Vec<AnyPlugin>)
    ensures
        r@ == plugins().filter(active(dir@, given(*only))),
{
    let all: Vec<AnyPlugin> = all_plugins();
    let mut out: Vec<AnyPlugin> = Vec::new();
    let ghost p = active(dir@, given(*only));
    proof {
        reveal(Seq::filter);
        assert(all@.take(0).filter(p) =~= out@);
    }
    for i in 0..all.len()
        invariant
            p == active(dir@, given(*only)),
            out@ == all@.take(i as int).filter(p),
    {
        proof {
            reveal(Seq::filter);
            assert(all@.take(i + 1).drop_last() =~= all@.take(i as int));
        }
        let plugin: AnyPlugin = all[i];
        if plugin.detect(dir) && is_chosen(only, plugin) {
            out.push(plugin);
        }
    }
    assert(all@.take(all@.len() as int) =~= all@);
    out
}

/// The header of a plugin's section: with the directory of the manifest, relative
/// to where the search began, unless it is that directory.
pub open spec fn label(plugin: AnyPlugin, dir: Dir, relative: Seq<char>) -> Seq<char> {
    if relative.len() == 0 {
        plugin.display_text(dir)
    } else {
        plugin.display_text(dir) + " ["@ + relative + "]"@
    }
}

pub fn plugin_label(plugin: AnyPlugin, dir: &Directory, relative: &str) -> (r: String)
    ensures
        r@ == label(plugin, dir@, relative@),
{
    let mut out: String = plugin.display_name(dir);
    if !relative.is_empty() {
        out.append(" [");
        out.append(relative);
        out.append("]");
    }
    out
}

/// A plugin is at work in a directory where it is detected there, and, where names are
/// given, where one of them is its name, in letters of either case, or another name
/// that it goes by.
pub proof fn law_detected_plugins(dir: Dir, only: Option<Seq<Seq<char>>>, p: AnyPlugin)
    ensures
        plugins().filter(active(dir, only)).contains(p) <==> {
            &&& match p {
                AnyPlugin::Cargo => CargoPlugin.detected(dir),
                AnyPlugin::Docker => DockerPlugin.detected(dir),
                AnyPlugin::GithubActions => GithubActionsPlugin.detected(dir),
                AnyPlugin::Npm => NpmPlugin.detected(dir),
                AnyPlugin::Pyproject => PyprojectPlugin.detected(dir),
                AnyPlugin::Requirements => RequirementsPlugin.detected(dir),
            }
            &&& only is None || exists|i: int|
                0 <= i < only->0.len() && goes_by(p, chars::lower(#[trigger] (only->0)[i]))
        },
{
    let all = plugins();
    lemma_filtered(all, active(dir, only));
    assert(all[0] == AnyPlugin::Cargo);
    assert(all[1] == AnyPlugin::Docker);
    assert(all[2] == AnyPlugin::GithubActions);
    assert(all[3] == AnyPlugin::Npm);
    assert(all[4] == AnyPlugin::Pyproject);
    assert(all[5] == AnyPlugin::Requirements);
    assert(all.contains(p)) by {
        match p {
            AnyPlugin::Cargo => assert(all[0] == p),
            AnyPlugin::Docker => assert(all[1] == p),
            AnyPlugin::GithubActions => assert(all[2] == p),
            AnyPlugin::Npm => assert(all[3] == p),
            AnyPlugin::Pyproject => assert(all[4] == p),
            AnyPlugin::Requirements => assert(all[5] == p),
        }
    }
    lemma_lower_names();
    lemma_names_differ();
    if let Some(names) = only {
        assert forall|i: int| 0 <= i < names.len() implies means(#[trigger] names[i], p) == goes_by(
            p,
            chars::lower(names[i]),
        ) by {}
        if named(names, p) {
            let i = choose|i: int| 0 <= i < names.len() && means(#[trigger] names[i], p);
            assert(goes_by(p, chars::lower((only->0)[i])));
        }
        if exists|i: int|
            0 <= i < only->0.len() && goes_by(p, chars::lower(#[trigger] (only->0)[i])) {
            let i = choose|i: int|
                0 <= i < only->0.len() && goes_by(p, chars::lower(#[trigger] (only->0)[i]));
            assert(means(names[i], p));
        }
    }
}

/// The names that a plugin goes by.
pub open spec fn goes_by(p: AnyPlugin, word: Seq<char>) -> bool {
    match p {
        AnyPlugin::Cargo => word == "cargo"@,
        AnyPlugin::Docker => word == "docker"@,
        AnyPlugin::GithubActions => word == "github-actions"@ || word == "actions"@,
        AnyPlugin::Npm => word == "npm"@ || word == "pnpm"@ || word == "yarn"@,
        AnyPlugin::Pyproject => word == "pyproject"@,
        AnyPlugin::Requirements => word == "requirements"@,
    }
}

proof fn lemma_lower_names()
    ensures
        chars::lower("Cargo"@) == "cargo"@,
        chars::lower("docker"@) == "docker"@,
        chars::lower("github-actions"@) == "github-actions"@,
        chars::lower("npm"@) == "npm"@,
        chars::lower("pyproject"@) == "pyproject"@,
        chars::lower("requirements"@) == "requirements"@,
{
    reveal_strlit("Cargo");
    reveal_strlit("cargo");
    reveal_strlit("docker");
    reveal_strlit("github-actions");
    reveal_strlit("npm");
    reveal_strlit("pyproject");
    reveal_strlit("requirements");
    assert(chars::lower("Cargo"@) =~= "cargo"@);
    assert(chars::lower("docker"@) =~= "docker"@);
    assert(chars::lower("github-actions"@) =~= "github-actions"@);
    assert(chars::lower("npm"@) =~= "npm"@);
    assert(chars::lower("pyproject"@) =~= "pyproject"@);
    assert(chars::lower("requirements"@) =~= "requirements"@);
}

proof fn lemma_names_differ()
    ensures
        "Cargo"@ != "npm"@,
        "Cargo"@ != "github-actions"@,
        "docker"@ != "npm"@,
        "docker"@ != "github-actions"@,
        "npm"@ != "github-actions"@,
        "pyproject"@ != "npm"@,
        "pyproject"@ != "github-actions"@,
        "requirements"@ != "npm"@,
        "requirements"@ != "github-actions"@,
{
    reveal_strlit("Cargo");
    reveal_strlit("docker");
    reveal_strlit("github-actions");
    reveal_strlit("npm");
    reveal_strlit("pyproject");
    reveal_strlit("requirements");
    assert("Cargo"@.len() == 5);
    assert("docker"@.len() == 6);
    assert("github-actions"@.len() == 14);
    assert("npm"@.len() == 3);
    assert("pyproject"@.len() == 9);
    assert("requirements"@.len() == 12);
}

/// When each plugin is detected: by its file, Docker by one of its manifests, GitHub
/// Actions by a workflow, and pyproject where its file can be read and declares
/// something.
pub proof fn law_detection(dir: Dir)
    ensures
        CargoPlugin.detected(dir) <==> dir.files.contains("Cargo.toml"@) || dir.folders.contains(
            "Cargo.toml"@,
        ),
        NpmPlugin.detected(dir) <==> dir.files.contains("package.json"@),
        RequirementsPlugin.detected(dir) <==> dir.files.contains("requirements.txt"@)
            || dir.folders.contains("requirements.txt"@),
        DockerPlugin.detected(dir) <==> exists|i: int|
            0 <= i < dir.files.len() && is_manifest()(#[trigger] dir.files[i]),
        GithubActionsPlugin.detected(dir) <==> exists|i: int|
            0 <= i < dir.workflows.len() && workflow_name(#[trigger] dir.workflows[i]),
        PyprojectPlugin.detected(dir) ==> dir.files.contains("pyproject.toml"@) && dir.pyproject is Some
            && toml_tree(dir.pyproject->0) is Some && declares(toml_tree(dir.pyproject->0)->0),
        dir.files.contains("pyproject.toml"@) && dir.pyproject is Some && toml_tree(
            dir.pyproject->0,
        ) is Some && declares(toml_tree(dir.pyproject->0)->0) ==> PyprojectPlugin.detected(dir),
{
    let kept = dir.files.filter(is_manifest());
    lemma_filtered(dir.files, is_manifest());
    chars::lemma_sort(kept);
    if kept.len() > 0 {
        assert(kept.contains(kept[0]));
        assert(dir.files.contains(kept[0]));
        let i = choose|i: int| 0 <= i < dir.files.len() && dir.files[i] == kept[0];
        assert(is_manifest()(dir.files[i]));
    }
    if exists|i: int| 0 <= i < dir.files.len() && is_manifest()(#[trigger] dir.files[i]) {
        let i = choose|i: int| 0 <= i < dir.files.len() && is_manifest()(#[trigger] dir.files[i]);
        assert(dir.files.contains(dir.files[i]));
        assert(kept.contains(dir.files[i]));
    }
}

/// The plugins are in the order of their names.
pub proof fn law_plugins_in_order(i: int, j: int)
    requires
        0 <= i < j < plugins().len(),
    ensures
        chars::le(chars::lower(plugins()[i].name_text()), chars::lower(plugins()[j].name_text())),
        plugins()[i] != plugins()[j],
{
    lemma_lower_names();
    reveal_strlit("cargo");
    reveal_strlit("docker");
    reveal_strlit("github-actions");
    reveal_strlit("npm");
    reveal_strlit("pyproject");
    reveal_strlit("requirements");
    assert("cargo"@[0] == 'c');
    assert("docker"@[0] == 'd');
    assert("github-actions"@[0] == 'g');
    assert("npm"@[0] == 'n');
    assert("pyproject"@[0] == 'p');
    assert("requirements"@[0] == 'r');
    let a = chars::lower(plugins()[i].name_text());
    let b = chars::lower(plugins()[j].name_text());
    assert(a.take(0) =~= b.take(0));
    chars::law_order(a, b, 0);
}

} // verus!
