//! What a report says of a dependency.
use vstd::prelude::*;
use vstd::string::*;
use crate::chars;
use crate::plugin::{Dep, Dependency, copy_opt};
use crate::plugins::github_actions::{action_repo, repo_of};
use crate::plugins::github_actions_laws::law_action_repo;
use crate::report::delta::{
    Delta, SupplyChainDelta, copy_strings, diff_dependency_maps, difference, normalize_supply_chain,
};
use crate::report::links::{
    classify_semver_change, extract_version_core, semver_change, trim_trailing_slash, version_core,
};
use crate::report::{DepReport, DependencyReport, Link, LinkRef, links};
use crate::text;

verus! {

/// Where dependencies come from.
#[derive(Debug, Clone, Copy, PartialEq, Eq, Structural)]
pub enum Ecosystem {
    Cargo,
    Npm,
    Python,
    GithubActions,
    Docker,
}

/// The ecosystem that a plugin's name stands for, in any case.
pub open spec fn ecosystem_named(name: Seq<char>) -> Option<Ecosystem> {
    let word = chars::lower(name);
    if word == "cargo"@ {
        Some(Ecosystem::Cargo)
    } else if word == "npm"@ {
        Some(Ecosystem::Npm)
    } else if word == "pyproject"@ || word == "requirements"@ {
        Some(Ecosystem::Python)
    } else if word == "github-actions"@ {
        Some(Ecosystem::GithubActions)
    } else if word == "docker"@ {
        Some(Ecosystem::Docker)
    } else {
        None
    }
}

pub fn ecosystem_of(plugin_name: &str) -> (r: Option<Ecosystem>)
    ensures
        r == ecosystem_named(plugin_name@),
{
    let word: String = text::lower(plugin_name);
    let word: &str = word.as_str();
    if text::eq(word, "cargo") {
        Some(Ecosystem::Cargo)
    } else if text::eq(word, "npm") {
        Some(Ecosystem::Npm)
    } else if text::eq(word, "pyproject") || text::eq(word, "requirements") {
        Some(Ecosystem::Python)
    } else if text::eq(word, "github-actions") {
        Some(Ecosystem::GithubActions)
    } else if text::eq(word, "docker") {
        Some(Ecosystem::Docker)
    } else {
        None
    }
}

/// The plugin's section lists findings on the whole dependency tree.
pub fn has_tree_findings(plugin_name: &str) -> (r: bool)
    ensures
        r == (chars::lower(plugin_name@) == chars::lower("cargo"@)),
{
    text::eq_ignore_case(plugin_name, "cargo")
}

/// What registries and repositories say of a dependency.
#[derive(Debug)]
pub struct Lookups {
    /// Its repository.
    pub repository: Option<String>,
    /// Its home page; of a Python project its changelog.
    pub page: Option<String>,
    /// Where the changes between its two versions can be seen.
    pub compare: Option<String>,
    /// What was found in the whole dependency tree.
    pub findings: Vec<String>,
    /// The dependencies of its current version.
    pub current_deps: Vec<(String, String)>,
    /// The dependencies of its latest version.
    pub latest_deps: Vec<(String, String)>,
}

/// What a `Lookups` says.
pub struct Facts {
    pub repository: Option<Seq<char>>,
    pub page: Option<Seq<char>>,
    pub compare: Option<Seq<char>>,
    pub findings: Seq<Seq<char>>,
    pub current_deps: Seq<(Seq<char>, Seq<char>)>,
    pub latest_deps: Seq<(Seq<char>, Seq<char>)>,
}

impl View for Lookups {
    type V = Facts;

    open spec fn view(&self) -> Facts {
        Facts {
            repository: chars::opt(self.repository),
            page: chars::opt(self.page),
            compare: chars::opt(self.compare),
            findings: chars::views(self.findings@),
            current_deps: chars::pairs(self.current_deps@),
            latest_deps: chars::pairs(self.latest_deps@),
        }
    }
}

/// The version to report as the latest.
pub open spec fn target(dep: Dep) -> Seq<char> {
    match dep.latest {
        Some(version) => version,
        None => dep.current,
    }
}

pub fn target_version(dep: &Dependency) -> (r: &str)
    ensures
        r@ == target(dep@),
{
    match &dep.latest_version {
        Some(version) => version.as_str(),
        None => dep.current_version.as_str(),
    }
}

/// The two versions whose dependencies are compared, where both can be told.
pub open spec fn versions_to_compare(dep: Dep) -> Option<(Seq<char>, Seq<char>)> {
    match (version_core(dep.current), version_core(target(dep))) {
        (Some(a), Some(b)) => Some((a, b)),
        _ => None,
    }
}

pub fn compared_versions(dep: &Dependency) -> (r: Option<(String, String)>)
    ensures
        match r {
            Some(p) => versions_to_compare(dep@) == Some(chars::pair(p)),
            None => versions_to_compare(dep@) is None,
        },
{
    match (
        extract_version_core(dep.current_version.as_str()),
        extract_version_core(target_version(dep)),
    ) {
        (Some(a), Some(b)) => Some((a, b)),
        _ => None,
    }
}

pub open spec fn link(label: Seq<char>, url: Seq<char>) -> Link {
    Link { label, url }
}

/// A list of one link, or of none.
pub open spec fn link_if(label: Seq<char>, url: Option<Seq<char>>) -> Seq<Link> {
    match url {
        Some(url) => seq![link(label, url)],
        None => seq![],
    }
}

/// Where the releases of a repository are.
pub open spec fn releases(repository: Option<Seq<char>>) -> Option<Seq<char>> {
    match repository {
        Some(url) => Some(chars::trim_end_char(url, '/') + "/releases"@),
        None => None,
    }
}

/// The comparison, where the repository is known.
pub open spec fn scm_diff(facts: Facts) -> Seq<Link> {
    match facts.repository {
        Some(_) => link_if("SCM diff"@, facts.compare),
        None => seq![],
    }
}

/// The repository of an action: the first two components of its name, or all of
/// it where it has no more than one.
pub open spec fn action_path(name: Seq<char>) -> Seq<char> {
    match repo_of(name) {
        Some(repo) => repo,
        None => name,
    }
}

/// Where an image is on Docker Hub.
pub open spec fn hub_page(name: Seq<char>) -> Seq<char> {
    let image = chars::trim(name);
    if image.contains('/') {
        "https://hub.docker.com/r/"@ + image
    } else {
        "https://hub.docker.com/_/"@ + image
    }
}

/// The links to what changed.
pub open spec fn diff_links(eco: Option<Ecosystem>, dep: Dep, facts: Facts) -> Seq<Link> {
    match eco {
        Some(Ecosystem::Cargo) => scm_diff(facts).push(
            link("Crates.io"@, "https://crates.io/crates/"@ + dep.name),
        ),
        Some(Ecosystem::Npm) => scm_diff(facts).push(
            link("npm package"@, "https://www.npmjs.com/package/"@ + dep.name),
        ),
        Some(Ecosystem::Python) => scm_diff(facts).push(
            link("PyPI package"@, "https://pypi.org/project/"@ + dep.name + "/"@),
        ),
        Some(Ecosystem::GithubActions) => if repo_of(dep.name) is Some {
            link_if("SCM diff"@, facts.compare)
        } else {
            seq![]
        },
        Some(Ecosystem::Docker) => seq![link("Docker Hub tags"@, hub_page(dep.name))],
        None => seq![],
    }
}

/// The links to what is written about the change.
pub open spec fn changelog_links(eco: Option<Ecosystem>, dep: Dep, facts: Facts) -> Seq<Link> {
    match eco {
        Some(Ecosystem::Cargo) => link_if("Releases"@, releases(facts.repository)) + link_if(
            "Homepage"@,
            facts.page,
        ),
        Some(Ecosystem::Npm) => link_if("Releases"@, releases(facts.repository)) + link_if(
            "Homepage"@,
            facts.page,
        ),
        Some(Ecosystem::Python) => link_if("Releases"@, releases(facts.repository)) + link_if(
            "Changelog"@,
            facts.page,
        ),
        Some(Ecosystem::GithubActions) => if repo_of(dep.name) is Some {
            seq![
                link(
                    "Releases"@,
                    "https://github.com/"@ + action_path(dep.name) + "/releases"@,
                ),
            ]
        } else {
            seq![]
        },
        _ => seq![],
    }
}

/// The links to what is known of security.
pub open spec fn security_links(eco: Option<Ecosystem>, dep: Dep) -> Seq<Link> {
    match eco {
        Some(Ecosystem::Cargo) => seq![
            link("deps.dev"@, "https://deps.dev/cargo/"@ + dep.name),
            link("OSV"@, "https://osv.dev/list?ecosystem=crates.io&q="@ + dep.name),
            link("RustSec advisories"@, "https://rustsec.org/advisories/"@),
        ],
        Some(Ecosystem::Npm) => seq![
            link("deps.dev"@, "https://deps.dev/npm/"@ + dep.name),
            link("OSV"@, "https://osv.dev/list?ecosystem=npm&q="@ + dep.name),
            link("Snyk"@, "https://security.snyk.io/package/npm/"@ + dep.name),
            link("Socket"@, "https://socket.dev/npm/package/"@ + dep.name),
        ],
        Some(Ecosystem::Python) => seq![
            link("deps.dev"@, "https://deps.dev/pypi/"@ + dep.name),
            link("OSV"@, "https://osv.dev/list?ecosystem=PyPI&q="@ + dep.name),
            link("Snyk"@, "https://security.snyk.io/package/pip/"@ + dep.name),
        ],
        Some(Ecosystem::GithubActions) => seq![
            link(
                "GitHub Security"@,
                "https://github.com/"@ + action_path(dep.name) + "/security"@,
            ),
            link(
                "Dependabot alerts"@,
                "https://docs.github.com/en/code-security/dependabot"@,
            ),
        ],
        Some(Ecosystem::Docker) => seq![
            link("Docker Scout"@, "https://docs.docker.com/scout/"@),
            link("Snyk container DB"@, "https://security.snyk.io/vuln/docker"@),
        ],
        None => seq![],
    }
}

/// Nothing but a note.
pub open spec fn only_note(note: Seq<char>) -> Delta {
    Delta { added: seq![], removed: seq![], changed: seq![], note: Some(note) }
}

/// How the dependencies of the two versions differ, as far as that can be told.
pub open spec fn supply_chain(eco: Option<Ecosystem>, dep: Dep, facts: Facts) -> Delta {
    match eco {
        Some(Ecosystem::GithubActions) => only_note(
            "Transitive dependency graph is not directly available for GitHub Actions refs."@,
        ),
        Some(Ecosystem::Docker) => only_note(
            "Container transitive packages vary by image build; no deterministic graph from tag metadata."@,
        ),
        Some(_) => if versions_to_compare(dep) is Some {
            difference(facts.current_deps, facts.latest_deps)
        } else {
            only_note("Supply-chain delta unavailable for this ecosystem/dependency."@)
        },
        None => only_note("Supply-chain delta unavailable for this ecosystem/dependency."@),
    }
}

/// What a report says of a dependency.
pub open spec fn analyzed(plugin_name: Seq<char>, dep: Dep, facts: Facts) -> DepReport {
    let eco = ecosystem_named(plugin_name);
    DepReport {
        name: dep.name,
        current: dep.current,
        latest: target(dep),
        impact: semver_change(dep.current, target(dep)),
        diff: diff_links(eco, dep, facts),
        changelog: changelog_links(eco, dep, facts),
        security: security_links(eco, dep),
        findings: if eco == Some(Ecosystem::Cargo) {
            facts.findings
        } else {
            seq![]
        },
        supply_chain: supply_chain(eco, dep, facts).normalized(),
    }
}

fn push_link(out: &mut Vec<LinkRef>, label: &str, url: String)
    ensures
        links(final(out)@) == links(old(out)@).push(link(label@, url@)),
{
    let ghost sofar = out@;
    let item = LinkRef { label: label.to_owned(), url };
    out.push(item);
    assert(links(out@) =~= links(sofar).push(item@));
}

fn push_link_if(out: &mut Vec<LinkRef>, label: &str, url: &Option<String>)
    ensures
        links(final(out)@) == links(old(out)@) + link_if(label@, chars::opt(*url)),
{
    let ghost sofar = links(out@);
    if let Some(url) = url {
        push_link(out, label, url.clone());
    }
    assert(links(out@) =~= sofar + link_if(label@, chars::opt(*url)));
}

fn joined(a: &str, b: &str, c: &str) -> (r: String)
    ensures
        r@ == a@ + b@ + c@,
{
    let mut out: String = a.to_owned();
    out.append(b);
    out.append(c);
    out
}

fn joined2(a: &str, b: &str) -> (r: String)
    ensures
        r@ == a@ + b@,
{
    let mut out: String = a.to_owned();
    out.append(b);
    out
}

fn releases_of(repository: &Option<String>) -> (r: Option<String>)
    ensures
        chars::opt(r) == releases(chars::opt(*repository)),
{
    match repository {
        Some(url) => Some(joined2(trim_trailing_slash(url.as_str()), "/releases")),
        None => None,
    }
}

fn action_path_of(name: &str) -> (r: &str)
    ensures
        r@ == action_path(name@),
{
    match action_repo(name) {
        Some(repo) => repo,
        None => name,
    }
}

fn hub_page_of(name: &str) -> (r: String)
    ensures
        r@ == hub_page(name@),
{
    let image: &str = text::trim(name);
    if text::has_char(image, '/') {
        joined2("https://hub.docker.com/r/", image)
    } else {
        joined2("https://hub.docker.com/_/", image)
    }
}

fn make_diff_links(eco: Option<Ecosystem>, dep: &Dependency, facts: &Lookups) -> (r: Vec<LinkRef>)
    ensures
        links(r@) == diff_links(eco, dep@, facts@),
{
    let mut out: Vec<LinkRef> = Vec::new();
    let name: &str = dep.name.as_str();
    assert(links(out@) =~= seq![]);
    match eco {
        Some(Ecosystem::Cargo) | Some(Ecosystem::Npm) | Some(Ecosystem::Python) => {
            if facts.repository.is_some() {
                push_link_if(&mut out, "SCM diff", &facts.compare);
            }
            assert(links(out@) =~= scm_diff(facts@));
        },
        _ => {},
    }
    match eco {
        Some(Ecosystem::Cargo) => {
            push_link(&mut out, "Crates.io", joined2("https://crates.io/crates/", name));
        },
        Some(Ecosystem::Npm) => {
            push_link(&mut out, "npm package", joined2("https://www.npmjs.com/package/", name));
        },
        Some(Ecosystem::Python) => {
            push_link(
                &mut out,
                "PyPI package",
                joined("https://pypi.org/project/", name, "/"),
            );
        },
        Some(Ecosystem::GithubActions) => {
            if action_repo(name).is_some() {
                push_link_if(&mut out, "SCM diff", &facts.compare);
            }
        },
        Some(Ecosystem::Docker) => {
            push_link(&mut out, "Docker Hub tags", hub_page_of(name));
        },
        None => {},
    }
    assert(links(out@) =~= diff_links(eco, dep@, facts@));
    out
}

fn make_changelog_links(eco: Option<Ecosystem>, dep: &Dependency, facts: &Lookups) -> (r: Vec<
    LinkRef,
>)
    ensures
        links(r@) == changelog_links(eco, dep@, facts@),
{
    let mut out: Vec<LinkRef> = Vec::new();
    let name: &str = dep.name.as_str();
    assert(links(out@) =~= seq![]);
    match eco {
        Some(Ecosystem::Cargo) | Some(Ecosystem::Npm) => {
            push_link_if(&mut out, "Releases", &releases_of(&facts.repository));
            push_link_if(&mut out, "Homepage", &facts.page);
        },
        Some(Ecosystem::Python) => {
            push_link_if(&mut out, "Releases", &releases_of(&facts.repository));
            push_link_if(&mut out, "Changelog", &facts.page);
        },
        Some(Ecosystem::GithubActions) => {
            if action_repo(name).is_some() {
                push_link(
                    &mut out,
                    "Releases",
                    joined("https://github.com/", action_path_of(name), "/releases"),
                );
            }
        },
        _ => {},
    }
    assert(links(out@) =~= changelog_links(eco, dep@, facts@));
    out
}

fn make_security_links(eco: Option<Ecosystem>, dep: &Dependency) -> (r: Vec<LinkRef>)
    ensures
        links(r@) == security_links(eco, dep@),
{
    let mut out: Vec<LinkRef> = Vec::new();
    let name: &str = dep.name.as_str();
    assert(links(out@) =~= seq![]);
    match eco {
        Some(Ecosystem::Cargo) => {
            push_link(&mut out, "deps.dev", joined2("https://deps.dev/cargo/", name));
            push_link(
                &mut out,
                "OSV",
                joined2("https://osv.dev/list?ecosystem=crates.io&q=", name),
            );
            push_link(
                &mut out,
                "RustSec advisories",
                "https://rustsec.org/advisories/".to_owned(),
            );
        },
        Some(Ecosystem::Npm) => {
            push_link(&mut out, "deps.dev", joined2("https://deps.dev/npm/", name));
            push_link(&mut out, "OSV", joined2("https://osv.dev/list?ecosystem=npm&q=", name));
            push_link(&mut out, "Snyk", joined2("https://security.snyk.io/package/npm/", name));
            push_link(&mut out, "Socket", joined2("https://socket.dev/npm/package/", name));
        },
        Some(Ecosystem::Python) => {
            push_link(&mut out, "deps.dev", joined2("https://deps.dev/pypi/", name));
            push_link(&mut out, "OSV", joined2("https://osv.dev/list?ecosystem=PyPI&q=", name));
            push_link(&mut out, "Snyk", joined2("https://security.snyk.io/package/pip/", name));
        },
        Some(Ecosystem::GithubActions) => {
            push_link(
                &mut out,
                "GitHub Security",
                joined("https://github.com/", action_path_of(name), "/security"),
            );
            push_link(
                &mut out,
                "Dependabot alerts",
                "https://docs.github.com/en/code-security/dependabot".to_owned(),
            );
        },
        Some(Ecosystem::Docker) => {
            push_link(&mut out, "Docker Scout", "https://docs.docker.com/scout/".to_owned());
            push_link(
                &mut out,
                "Snyk container DB",
                "https://security.snyk.io/vuln/docker".to_owned(),
            );
        },
        None => {},
    }
    assert(links(out@) =~= security_links(eco, dep@));
    out
}

fn noted(note: &str) -> (r: SupplyChainDelta)
    ensures
        r@ == only_note(note@),
{
    let r = SupplyChainDelta {
        added: Vec::new(),
        removed: Vec::new(),
        changed: Vec::new(),
        note: Some(note.to_owned()),
    };
    assert(r@ =~= only_note(note@));
    r
}

fn make_supply_chain(eco: Option<Ecosystem>, dep: &Dependency, facts: &Lookups) -> (r:
    SupplyChainDelta)
    ensures
        r@ == supply_chain(eco, dep@, facts@),
{
    match eco {
        Some(Ecosystem::GithubActions) => noted(
            "Transitive dependency graph is not directly available for GitHub Actions refs.",
        ),
        Some(Ecosystem::Docker) => noted(
            "Container transitive packages vary by image build; no deterministic graph from tag metadata.",
        ),
        Some(_) => {
            if compared_versions(dep).is_some() {
                diff_dependency_maps(&facts.current_deps, &facts.latest_deps)
            } else {
                noted("Supply-chain delta unavailable for this ecosystem/dependency.")
            }
        },
        None => noted("Supply-chain delta unavailable for this ecosystem/dependency."),
    }
}

/// What a report says of a dependency, given what registries and repositories
/// say of it.
pub fn analyze_dependency(plugin_name: &str, dep: &Dependency, facts: &Lookups) -> (r:
    DependencyReport)
    ensures
        r@ == analyzed(plugin_name@, dep@, facts@),
{
    let eco: Option<Ecosystem> = ecosystem_of(plugin_name);
    let latest: &str = target_version(dep);
    let findings: Vec<String> = match eco {
        Some(Ecosystem::Cargo) => copy_strings(&facts.findings),
        _ => Vec::new(),
    };
    let r = DependencyReport {
        name: dep.name.clone(),
        current_version: dep.current_version.clone(),
        latest_version: latest.to_owned(),
        semver_impact: classify_semver_change(dep.current_version.as_str(), latest),
        diff_links: make_diff_links(eco, dep, facts),
        changelog_links: make_changelog_links(eco, dep, facts),
        security_links: make_security_links(eco, dep),
        security_findings: findings,
        supply_chain: normalize_supply_chain(make_supply_chain(eco, dep, facts)),
    };
    assert(r@ =~= analyzed(plugin_name@, dep@, facts@));
    r
}

/// The repository in which two versions of a dependency are compared.
pub open spec fn repository_compared(
    plugin_name: Seq<char>,
    name: Seq<char>,
    repository: Option<Seq<char>>,
) -> Option<Seq<char>> {
    match ecosystem_named(plugin_name) {
        Some(Ecosystem::GithubActions) => match repo_of(name) {
            Some(repo) => Some("https://github.com/"@ + repo),
            None => None,
        },
        Some(Ecosystem::Docker) => None,
        Some(_) => repository,
        None => None,
    }
}

/// The address of the repository whose changes a report compares, where it is
/// known: that of an action follows from its name.
pub fn compared_repository(plugin_name: &str, dep: &Dependency, repository: &Option<String>) -> (r:
    Option<String>)
    ensures
        chars::opt(r) == repository_compared(plugin_name@, dep.name@, chars::opt(*repository)),
{
    match ecosystem_of(plugin_name) {
        Some(Ecosystem::GithubActions) => match action_repo(dep.name.as_str()) {
            Some(repo) => Some(joined2("https://github.com/", repo)),
            None => None,
        },
        Some(Ecosystem::Docker) => None,
        Some(_) => copy_opt(repository),
        None => None,
    }
}

/// The plugins of each ecosystem, in letters of either case.
pub proof fn law_ecosystems(name: Seq<char>)
    ensures
        ({
            let word = chars::lower(name);
            let r = ecosystem_named(name);
            &&& r == Some(Ecosystem::Cargo) <==> word == "cargo"@
            &&& r == Some(Ecosystem::Npm) <==> word == "npm"@
            &&& r == Some(Ecosystem::Python) <==> word == "pyproject"@ || word == "requirements"@
            &&& r == Some(Ecosystem::GithubActions) <==> word == "github-actions"@
            &&& r == Some(Ecosystem::Docker) <==> word == "docker"@
        }),
{
    reveal_strlit("cargo");
    reveal_strlit("npm");
    reveal_strlit("pyproject");
    reveal_strlit("requirements");
    reveal_strlit("github-actions");
    reveal_strlit("docker");
    assert("cargo"@.len() == 5);
    assert("npm"@.len() == 3);
    assert("pyproject"@.len() == 9);
    assert("requirements"@.len() == 12);
    assert("github-actions"@.len() == 14);
    assert("docker"@.len() == 6);
}

/// What a report says of a dependency: its versions, the current one standing in for a
/// latest that is not known; findings for Cargo alone; and the difference of what it
/// depends on where there is a list of that and both versions can be read.
pub proof fn law_report_of_a_dependency(plugin_name: Seq<char>, dep: Dep, facts: Facts)
    ensures
        ({
            let word = chars::lower(plugin_name);
            let r = analyzed(plugin_name, dep, facts);
            let listed = word == "cargo"@ || word == "npm"@ || word == "pyproject"@ || word
                == "requirements"@;
            &&& r.name == dep.name
            &&& r.current == dep.current
            &&& dep.latest is Some ==> r.latest == dep.latest->0
            &&& dep.latest is None ==> r.latest == dep.current
            &&& r.impact == semver_change(r.current, r.latest)
            &&& word == "cargo"@ ==> r.findings == facts.findings
            &&& word != "cargo"@ ==> r.findings.len() == 0
            &&& listed && version_core(r.current) is Some && version_core(r.latest) is Some
                ==> r.supply_chain == difference(facts.current_deps, facts.latest_deps)
            &&& !listed || version_core(r.current) is None || version_core(r.latest) is None
                ==> r.supply_chain.is_silent() && r.supply_chain.note is Some
        }),
{
    law_ecosystems(plugin_name);
    let d = difference(facts.current_deps, facts.latest_deps);
    assert(d.normalized() == d);
}

/// The links to a repository are there where it is known: the comparison of the two
/// versions, and the page of its releases.
pub proof fn law_links_to_the_repository(plugin_name: Seq<char>, dep: Dep, facts: Facts, url: Seq<char>)
    requires
        facts.repository == Some(url),
        url.len() > 0,
        url.last() != '/',
    ensures
        ({
            let word = chars::lower(plugin_name);
            let r = analyzed(plugin_name, dep, facts);
            word == "cargo"@ || word == "npm"@ || word == "pyproject"@ || word == "requirements"@
                ==> {
                &&& facts.compare is Some ==> r.diff.contains(
                    Link { label: "SCM diff"@, url: facts.compare->0 },
                )
                &&& r.changelog.contains(Link { label: "Releases"@, url: url + "/releases"@ })
            }
        }),
{
    law_ecosystems(plugin_name);
    let r = analyzed(plugin_name, dep, facts);
    assert(url[url.len() - 1] == url.last());
    chars::lemma_trailing_is(url, chars::is('/'), 0);
    assert(url.take(url.len() as int) =~= url);
    let word = chars::lower(plugin_name);
    if word == "cargo"@ || word == "npm"@ || word == "pyproject"@ || word == "requirements"@ {
        assert(r.changelog[0] == Link { label: "Releases"@, url: url + "/releases"@ });
        if facts.compare is Some {
            assert(r.diff[0] == Link { label: "SCM diff"@, url: facts.compare->0 });
        }
    }
}

/// Versions are compared in the repository that is known of a package, and in that of
/// the action itself. Those of images are not compared.
pub proof fn law_repository_compared(
    plugin_name: Seq<char>,
    owner: Seq<char>,
    repo: Seq<char>,
    repository: Option<Seq<char>>,
)
    requires
        !owner.contains('/'),
        !repo.contains('/'),
    ensures
        ({
            let word = chars::lower(plugin_name);
            let name = owner + seq!['/'] + repo;
            let r = repository_compared(plugin_name, name, repository);
            &&& word == "cargo"@ || word == "npm"@ || word == "pyproject"@ || word
                == "requirements"@ ==> r == repository
            &&& word == "github-actions"@ ==> r == Some("https://github.com/"@ + name)
            &&& word == "docker"@ ==> r is None
        }),
{
    law_ecosystems(plugin_name);
    law_action_repo(owner, repo, seq![]);
}

/// The page of the package in its registry is the last of the links to differences.
pub proof fn law_package_pages(plugin_name: Seq<char>, dep: Dep, facts: Facts)
    ensures
        ({
            let word = chars::lower(plugin_name);
            let r = analyzed(plugin_name, dep, facts);
            &&& word == "cargo"@ ==> r.diff.last() == (Link {
                label: "Crates.io"@,
                url: "https://crates.io/crates/"@ + dep.name,
            })
            &&& word == "npm"@ ==> r.diff.last() == (Link {
                label: "npm package"@,
                url: "https://www.npmjs.com/package/"@ + dep.name,
            })
            &&& word == "pyproject"@ || word == "requirements"@ ==> r.diff.last() == (Link {
                label: "PyPI package"@,
                url: "https://pypi.org/project/"@ + dep.name + "/"@,
            })
            &&& word == "docker"@ ==> r.diff == seq![
                Link { label: "Docker Hub tags"@, url: hub_page(dep.name) },
            ]
            &&& word == "github-actions"@ && dep.name.contains('/') && facts.compare is Some
                ==> r.diff == seq![Link { label: "SCM diff"@, url: facts.compare->0 }]
        }),
{
    law_ecosystems(plugin_name);
    chars::lemma_leading(dep.name, chars::is_not('/'));
    if dep.name.contains('/') {
        let i = choose|i: int| 0 <= i < dep.name.len() && dep.name[i] == '/';
        if chars::leading(dep.name, chars::is_not('/')) == dep.name.len() {
            assert(chars::is_not('/')(dep.name[i]));
        }
        assert(repo_of(dep.name) is Some);
    }
}

/// An official image has its page under an underscore, any other under `r`.
pub proof fn law_hub_page(name: Seq<char>)
    requires
        name.len() > 0,
        !chars::is_space(name[0]),
        !chars::is_space(name.last()),
    ensures
        name.contains('/') ==> hub_page(name) == "https://hub.docker.com/r/"@ + name,
        !name.contains('/') ==> hub_page(name) == "https://hub.docker.com/_/"@ + name,
{
    chars::lemma_trim_is(name);
}

/// Where to look for advisories: for each package its own pages, for an action its
/// repository's.
pub proof fn law_security_pages(plugin_name: Seq<char>, dep: Dep, facts: Facts)
    ensures
        ({
            let word = chars::lower(plugin_name);
            let r = analyzed(plugin_name, dep, facts);
            &&& word == "cargo"@ ==> r.security[0].url == "https://deps.dev/cargo/"@ + dep.name
                && r.security[1].url == "https://osv.dev/list?ecosystem=crates.io&q="@ + dep.name
            &&& word == "npm"@ ==> r.security[0].url == "https://deps.dev/npm/"@ + dep.name
                && r.security[1].url == "https://osv.dev/list?ecosystem=npm&q="@ + dep.name
                && r.security[2].url == "https://security.snyk.io/package/npm/"@ + dep.name
                && r.security[3].url == "https://socket.dev/npm/package/"@ + dep.name
            &&& word == "pyproject"@ || word == "requirements"@ ==> r.security[0].url
                == "https://deps.dev/pypi/"@ + dep.name && r.security[1].url
                == "https://osv.dev/list?ecosystem=PyPI&q="@ + dep.name && r.security[2].url
                == "https://security.snyk.io/package/pip/"@ + dep.name
            &&& word == "github-actions"@ && repo_of(dep.name) is Some ==> r.security[0].url
                == "https://github.com/"@ + repo_of(dep.name)->0 + "/security"@
                && r.changelog[0].url == "https://github.com/"@ + repo_of(dep.name)->0
                + "/releases"@
        }),
{
    law_ecosystems(plugin_name);
}

} // verus!
