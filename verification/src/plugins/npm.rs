//! JavaScript packages in `package.json`.
use vstd::prelude::*;
use vstd::string::*;
use crate::chars;
use crate::documents;
use crate::documents::{
    json_held, json_node, json_of, json_pretty, json_print, json_says, json_set, json_tree,
    json_with, parse_json, read_json,
};
use crate::plugin::{
    Conflict, Dep, DepType, Dependency, Dir, Directory, PeerConflict, Plugin, conflicts, deps,
};
use crate::plugins::cargo::{satisfies, text_or_empty};
use crate::plugins::requirements::{prefix_of, range_prefix};
use crate::ranges;
use crate::text;
use crate::tree::{
    Node, Stride, Tree, at, child, diverge, entries_of, entry_trees, law_put, put, reachable,
    text_at,
};

verus! {

/// Detected JS package manager based on lock file presence.
#[derive(Debug, Clone, Copy, PartialEq, Eq, Structural)]
pub enum JsPackageManager {
    Npm,
    Pnpm,
    Yarn,
}

impl JsPackageManager {
    /// The package manager whose lock file is there; npm where only the manifest
    /// is.
    pub open spec fn of(dir: Dir) -> Option<JsPackageManager> {
        if dir.files.contains("pnpm-lock.yaml"@) {
            Some(JsPackageManager::Pnpm)
        } else if dir.files.contains("yarn.lock"@) {
            Some(JsPackageManager::Yarn)
        } else if dir.files.contains("package-lock.json"@) || dir.files.contains("package.json"@) {
            Some(JsPackageManager::Npm)
        } else {
            None
        }
    }

    pub open spec fn name_text(self) -> Seq<char> {
        match self {
            JsPackageManager::Npm => "npm"@,
            JsPackageManager::Pnpm => "pnpm"@,
            JsPackageManager::Yarn => "yarn"@,
        }
    }

    pub open spec fn lock_text(self) -> Seq<char> {
        match self {
            JsPackageManager::Npm => "package-lock.json"@,
            JsPackageManager::Pnpm => "pnpm-lock.yaml"@,
            JsPackageManager::Yarn => "yarn.lock"@,
        }
    }

    /// Detect which package manager is used by checking for lock files.
    pub fn detect(dir: &Directory) -> (r: Option<Self>)
        ensures
            r == JsPackageManager::of(dir@),
    {
        if dir.has_file("pnpm-lock.yaml") {
            Some(JsPackageManager::Pnpm)
        } else if dir.has_file("yarn.lock") {
            Some(JsPackageManager::Yarn)
        } else if dir.has_file("package-lock.json") || dir.has_file("package.json") {
            Some(JsPackageManager::Npm)
        } else {
            None
        }
    }

    pub fn name(&self) -> (r: &'static str)
        ensures
            r@ == self.name_text(),
    {
        match self {
            JsPackageManager::Npm => "npm",
            JsPackageManager::Pnpm => "pnpm",
            JsPackageManager::Yarn => "yarn",
        }
    }

    pub fn lock_file(&self) -> (r: &'static str)
        ensures
            r@ == self.lock_text(),
    {
        match self {
            JsPackageManager::Npm => "package-lock.json",
            JsPackageManager::Pnpm => "pnpm-lock.yaml",
            JsPackageManager::Yarn => "yarn.lock",
        }
    }
}

/// Looks after `package.json`.
#[derive(Debug, Clone, Copy)]
pub struct NpmPlugin;

impl NpmPlugin {
    pub fn new() -> (r: Self)
        ensures
            r == NpmPlugin,
    {
        NpmPlugin
    }
}

impl Plugin for NpmPlugin {
    open spec fn name_text(&self) -> Seq<char> {
        "npm"@
    }

    open spec fn file_text(&self) -> Seq<char> {
        "package.json"@
    }

    open spec fn detected(&self, dir: Dir) -> bool {
        dir.files.contains("package.json"@)
    }

    open spec fn display_text(&self, dir: Dir) -> Seq<char> {
        match JsPackageManager::of(dir) {
            Some(pm) => pm.name_text() + " (package.json"@ + (if dir.files.contains(
                pm.lock_text(),
            ) {
                " + "@ + pm.lock_text()
            } else {
                seq![]
            }) + ")"@,
            None => "npm (package.json)"@,
        }
    }

    fn name(&self) -> (r: &'static str) {
        "npm"
    }

    fn file_name(&self) -> (r: &'static str) {
        "package.json"
    }

    fn detect(&self, dir: &Directory) -> (r: bool) {
        dir.has_file("package.json")
    }

    fn display_name(&self, dir: &Directory) -> (r: String) {
        match JsPackageManager::detect(dir) {
            Some(pm) => {
                let mut out: String = pm.name().to_owned();
                out.append(" (package.json");
                let ghost sofar = out@;
                if dir.has_file(pm.lock_file()) {
                    out.append(" + ");
                    out.append(pm.lock_file());
                    assert(out@ =~= sofar + (" + "@ + pm.lock_text()));
                } else {
                    assert(out@ =~= sofar + seq![]);
                }
                out.append(")");
                out
            },
            None => "npm (package.json)".to_owned(),
        }
    }
}

/// The packages that the entries of a section declare: those whose range is a
/// text.
pub open spec fn section_deps(entries: Seq<(Seq<char>, Tree)>, dep_type: DepType) -> Seq<Dep>
    decreases entries.len(),
{
    if entries.len() == 0 {
        seq![]
    } else {
        let before = section_deps(entries.drop_last(), dep_type);
        match entries.last().1 {
            Tree::Text(range) => before.push(Dep::fresh(entries.last().0, range, dep_type)),
            _ => before,
        }
    }
}

/// The packages of a section.
pub fn extract_deps(section: &Node, dep_type: DepType) -> (r: Vec<Dependency>)
    ensures
        deps(r@) == section_deps(entries_of(section@), dep_type),
{
    let mut out: Vec<Dependency> = Vec::new();
    assert(deps(out@) =~= seq![]);
    match section.as_entries() {
        Some(entries) => {
            let ghost all = entry_trees(entries@);
            for i in 0..entries.len()
                invariant
                    all == entry_trees(entries@),
                    deps(out@) == section_deps(all.take(i as int), dep_type),
            {
                assert(all.take(i + 1).drop_last() =~= all.take(i as int));
                assert(all.take(i + 1).last() == (entries@[i as int].0@, entries@[i as int].1@));
                if let Some(range) = entries[i].1.as_text() {
                    let ghost sofar = out@;
                    let dep: Dependency = Dependency::new(
                        entries[i].0.clone(),
                        range.to_owned(),
                        dep_type,
                    );
                    out.push(dep);
                    assert(deps(out@) =~= deps(sofar).push(dep@));
                }
            }
            assert(all.take(all.len() as int) =~= all);
        },
        None => {},
    }
    out
}

/// The section that holds the packages of a group; a manifest has none for build
/// dependencies.
pub open spec fn section_name(dep_type: DepType) -> Option<Seq<char>> {
    match dep_type {
        DepType::Normal => Some("dependencies"@),
        DepType::Dev => Some("devDependencies"@),
        DepType::Optional => Some("optionalDependencies"@),
        DepType::Build => None,
    }
}

fn section_of(dep_type: DepType) -> (r: Option<&'static str>)
    ensures
        match r {
            Some(s) => section_name(dep_type) == Some(s@),
            None => section_name(dep_type) is None,
        },
{
    match dep_type {
        DepType::Normal => Some("dependencies"),
        DepType::Dev => Some("devDependencies"),
        DepType::Optional => Some("optionalDependencies"),
        DepType::Build => None,
    }
}

/// The packages of one group.
pub open spec fn group_deps(doc: Tree, dep_type: DepType) -> Seq<Dep> {
    match section_name(dep_type) {
        Some(name) => match child(doc, name) {
            Some(section) => section_deps(entries_of(section), dep_type),
            None => seq![],
        },
        None => seq![],
    }
}

/// The packages that a manifest declares.
pub open spec fn listed(doc: Tree) -> Seq<Dep> {
    group_deps(doc, DepType::Normal) + group_deps(doc, DepType::Dev) + group_deps(
        doc,
        DepType::Optional,
    )
}

fn extract_group(doc: &Node, dep_type: DepType) -> (r: Vec<Dependency>)
    ensures
        deps(r@) == group_deps(doc@, dep_type),
{
    if let Some(name) = section_of(dep_type) {
        if let Some(section) = doc.get(name) {
            return extract_deps(section, dep_type);
        }
    }
    let r: Vec<Dependency> = Vec::new();
    assert(deps(r@) =~= seq![]);
    r
}

/// The packages of a manifest that was read.
pub fn manifest_dependencies(doc: &Node) -> (r: Vec<Dependency>)
    ensures
        deps(r@) == listed(doc@),
{
    let mut out: Vec<Dependency> = extract_group(doc, DepType::Normal);
    let mut dev: Vec<Dependency> = extract_group(doc, DepType::Dev);
    let mut optional: Vec<Dependency> = extract_group(doc, DepType::Optional);
    let ghost (a, b, c) = (out@, dev@, optional@);
    out.append(&mut dev);
    out.append(&mut optional);
    assert(deps(out@) =~= deps(a) + deps(b) + deps(c));
    out
}

/// The packages that the text of a manifest declares; an error where it is no
/// JSON.
pub fn list_dependencies(content: &str) -> (r: Result<Vec<Dependency>, String>)
    ensures
        match json_tree(content@) {
            Some(doc) => r matches Ok(items) && deps(items@) == listed(doc),
            None => r is Err,
        },
{
    match read_json(content) {
        Ok(doc) => Ok(manifest_dependencies(&doc)),
        Err(e) => Err(e),
    }
}

/// Where the registry describes a package.
pub fn package_url(name: &str) -> (r: String)
    ensures
        r@ == "https://registry.npmjs.org/"@ + name@,
{
    let mut out: String = "https://registry.npmjs.org/".to_owned();
    out.append(name);
    out
}

/// The peers that are not among the optional ones.
pub open spec fn required(
    peers: Seq<(Seq<char>, Seq<char>)>,
    optional: Seq<Seq<char>>,
) -> Seq<(Seq<char>, Seq<char>)> {
    peers.filter(|p: (Seq<char>, Seq<char>)| !optional.contains(p.0))
}

/// The peers that a package needs: all that it does not call optional.
pub fn required_peers(peers: &Vec<(String, String)>, optional: &Vec<String>) -> (r: Vec<
    (String, String),
>)
    ensures
        chars::pairs(r@) == required(chars::pairs(peers@), chars::views(optional@)),
{
    let mut out: Vec<(String, String)> = Vec::new();
    let ghost all = chars::pairs(peers@);
    let ghost needed = |p: (Seq<char>, Seq<char>)| !chars::views(optional@).contains(p.0);
    proof {
        reveal(Seq::filter);
        assert(chars::pairs(out@) =~= all.take(0).filter(needed));
    }
    for i in 0..peers.len()
        invariant
            all == chars::pairs(peers@),
            needed == (|p: (Seq<char>, Seq<char>)| !chars::views(optional@).contains(p.0)),
            chars::pairs(out@) == all.take(i as int).filter(needed),
    {
        proof {
            reveal(Seq::filter);
            assert(all.take(i + 1).drop_last() =~= all.take(i as int));
            assert(all.take(i + 1).last() == chars::pair(peers@[i as int]));
        }
        if !text::contains(optional, peers[i].0.as_str()) {
            let ghost sofar = out@;
            let item: (String, String) = (peers[i].0.clone(), peers[i].1.clone());
            out.push(item);
            assert(chars::pairs(out@) =~= chars::pairs(sofar).push(chars::pair(item)));
        }
    }
    assert(all.take(all.len() as int) =~= all);
    out
}

/// What the registry says of a package: its latest version, and the peers that
/// this version needs.
#[derive(Debug)]
pub struct Release {
    pub version: String,
    pub peers: Vec<(String, String)>,
}

/// The package after a lookup that gave its latest release or failed.
pub open spec fn resolved(dep: Dep, release: Option<Release>, admitted: Option<bool>) -> Dep {
    match release {
        Some(release) => Dep {
            latest: Some(release.version@),
            satisfied: satisfies(dep.current, release.version@, admitted),
            peers: chars::pairs(release.peers@),
            ..dep
        },
        None => dep.unchecked(),
    }
}

/// The package after a lookup, given whether its range admits the latest version.
pub fn settle(dep: Dependency, release: Option<Release>, admitted: Option<bool>) -> (r: Dependency)
    ensures
        r@ == resolved(dep@, release, admitted),
{
    match release {
        Some(release) => {
            let satisfied: bool = match admitted {
                Some(answer) => answer,
                None => text::eq(release.version.as_str(), dep.current_version.as_str()),
            };
            let r = Dependency {
                latest_version: Some(release.version),
                satisfied,
                peer_deps: release.peers,
                ..dep
            };
            assert(r@ =~= resolved(dep@, Some(release), admitted));
            r
        },
        None => dep.with_failure(),
    }
}

/// The package after its lookup: its range is held against the version released.
pub open spec fn looked_up(dep: Dep, release: Option<Release>) -> Dep {
    resolved(
        dep,
        release,
        match release {
            Some(release) => ranges::npm_admits(dep.current, release.version@),
            None => None,
        },
    )
}

/// The package after a lookup.
pub fn resolve(dep: Dependency, release: Option<Release>) -> (r: Dependency)
    requires
        release is Some ==> ranges::readable(dep.current_version@),
    ensures
        r@ == looked_up(dep@, release),
{
    let admitted: Option<bool> = match &release {
        Some(release) => ranges::npm_satisfies(
            dep.current_version.as_str(),
            release.version.as_str(),
        ),
        None => None,
    };
    settle(dep, release, admitted)
}

/// The version that a package would be at after an update.
pub open spec fn prospect(dep: Dep) -> Seq<char> {
    match dep.latest {
        Some(version) => version,
        None => dep.current,
    }
}

fn prospect_of(dep: &Dependency) -> (r: &str)
    ensures
        r@ == prospect(dep@),
{
    match &dep.latest_version {
        Some(version) => version.as_str(),
        None => dep.current_version.as_str(),
    }
}

/// The package of that name, the last where there are several.
pub open spec fn last_named(items: Seq<Dep>, name: Seq<char>) -> Option<int>
    decreases items.len(),
{
    if items.len() == 0 {
        None
    } else if items.last().name == name {
        Some(items.len() - 1)
    } else {
        last_named(items.drop_last(), name)
    }
}

fn find_named(items: &Vec<Dependency>, name: &str) -> (r: Option<usize>)
    ensures
        match r {
            Some(j) => j < items.len() && last_named(deps(items@), name@) == Some(j as int),
            None => last_named(deps(items@), name@) is None,
        },
{
    let ghost all = deps(items@);
    let mut n: usize = items.len();
    assert(all.take(n as int) =~= all);
    while n > 0
        invariant
            n <= items.len(),
            all == deps(items@),
            last_named(all, name@) == last_named(all.take(n as int), name@),
        decreases n,
    {
        assert(all.take(n as int).last() == items@[n - 1]@);
        if text::eq(items[n - 1].name.as_str(), name) {
            return Some(n - 1);
        }
        assert(all.take(n as int).drop_last() =~= all.take(n - 1));
        n = n - 1;
    }
    None
}

/// Whether peer `k` of package `i` is met, as the verdicts have it.
pub open spec fn verdict(verdicts: Seq<Vec<bool>>) -> spec_fn(int, int) -> bool {
    |i: int, k: int| verdicts[i]@[k]
}

/// The conflicts with package `j` that the first `n` peers of package `i` make,
/// where `met` says which peers are met.
pub open spec fn conflicts_from(
    items: Seq<Dep>,
    met: spec_fn(int, int) -> bool,
    i: int,
    n: int,
    j: int,
) -> Seq<Conflict>
    decreases n,
{
    if n <= 0 {
        seq![]
    } else {
        let before = conflicts_from(items, met, i, n - 1, j);
        let (name, range) = items[i].peers[n - 1];
        if last_named(items, name) == Some(j) && !met(i, n - 1) {
            before.push(
                Conflict {
                    blocker: items[i].name,
                    blocker_version: prospect(items[i]),
                    required_range: range,
                },
            )
        } else {
            before
        }
    }
}

/// The conflicts with package `j` that the first `m` packages make.
pub open spec fn conflicts_with(
    items: Seq<Dep>,
    met: spec_fn(int, int) -> bool,
    m: int,
    j: int,
) -> Seq<Conflict>
    decreases m,
{
    if m <= 0 {
        seq![]
    } else {
        conflicts_with(items, met, m - 1, j) + conflicts_from(
            items,
            met,
            m - 1,
            items[m - 1].peers.len() as int,
            j,
        )
    }
}

/// The package `j`, held back by the conflicts with it.
pub open spec fn held_back(items: Seq<Dep>, met: spec_fn(int, int) -> bool, j: int) -> Dep {
    Dep {
        held_back: items[j].held_back + conflicts_with(items, met, items.len() as int, j),
        ..items[j]
    }
}

/// There is a verdict on each peer.
pub open spec fn complete(items: Seq<Dep>, verdicts: Seq<Vec<bool>>) -> bool {
    &&& verdicts.len() == items.len()
    &&& forall|i: int|
        0 <= i < items.len() ==> (#[trigger] verdicts[i])@.len() == items[i].peers.len()
}

fn collect_conflicts(items: &Vec<Dependency>, verdicts: &Vec<Vec<bool>>, j: usize) -> (r: Vec<
    PeerConflict,
>)
    requires
        complete(deps(items@), verdicts@),
    ensures
        conflicts(r@) == conflicts_with(
            deps(items@),
            verdict(verdicts@),
            items@.len() as int,
            j as int,
        ),
{
    let ghost all = deps(items@);
    let mut out: Vec<PeerConflict> = Vec::new();
    assert(conflicts(out@) =~= seq![]);
    for i in 0..items.len()
        invariant
            all == deps(items@),
            complete(all, verdicts@),
            conflicts(out@) == conflicts_with(all, verdict(verdicts@), i as int, j as int),
    {
        let ghost before = conflicts(out@);
        let dep: &Dependency = &items[i];
        assert(all[i as int] == dep@);
        assert(verdicts@[i as int]@.len() == all[i as int].peers.len());
        assert(before + conflicts_from(all, verdict(verdicts@), i as int, 0, j as int) =~= before);
        for k in 0..dep.peer_deps.len()
            invariant
                all == deps(items@),
                i < items.len(),
                i < verdicts.len(),
                *dep == items@[i as int],
                all[i as int] == dep@,
                verdicts@[i as int]@.len() == dep.peer_deps@.len(),
                conflicts(out@) == before + conflicts_from(
                    all,
                    verdict(verdicts@),
                    i as int,
                    k as int,
                    j as int,
                ),
        {
            let ghost sofar = out@;
            assert(all[i as int].peers[k as int] == chars::pair(dep.peer_deps@[k as int]));
            let hit: bool = match find_named(items, dep.peer_deps[k].0.as_str()) {
                Some(target) => target == j && !verdicts[i][k],
                None => false,
            };
            if hit {
                let conflict = PeerConflict {
                    blocker: dep.name.clone(),
                    blocker_version: prospect_of(dep).to_owned(),
                    required_range: dep.peer_deps[k].1.clone(),
                };
                out.push(conflict);
                assert(conflicts(out@) =~= conflicts(sofar).push(conflict@));
            }
            assert(conflicts(out@) =~= before + conflicts_from(
                all,
                verdict(verdicts@),
                i as int,
                k + 1,
                j as int,
            ));
        }
    }
    out
}

/// The packages with the conflicts that hold each of them back, given which peers
/// are met.
pub fn hold_back(items: &Vec<Dependency>, verdicts: &Vec<Vec<bool>>) -> (r: Vec<Dependency>)
    requires
        complete(deps(items@), verdicts@),
    ensures
        deps(r@) == Seq::new(items@.len(), |j: int| held_back(deps(items@), verdict(verdicts@), j)),
{
    let ghost all = deps(items@);
    let mut out: Vec<Dependency> = Vec::new();
    for j in 0..items.len()
        invariant
            all == deps(items@),
            complete(all, verdicts@),
            deps(out@) == Seq::new(j as nat, |j: int| held_back(all, verdict(verdicts@), j)),
    {
        let ghost sofar = out@;
        let mut dep: Dependency = items[j].clone();
        let mut new: Vec<PeerConflict> = collect_conflicts(items, verdicts, j);
        let ghost (a, b) = (dep.held_back_by@, new@);
        let ghost first = dep@;
        dep.held_back_by.append(&mut new);
        assert(conflicts(dep.held_back_by@) =~= conflicts(a) + conflicts(b));
        assert(dep@ =~= held_back(all, verdict(verdicts@), j as int));
        out.push(dep);
        assert(deps(out@) =~= deps(sofar).push(dep@));
        assert(deps(out@) =~= Seq::new((j + 1) as nat, |j: int| held_back(all, verdict(verdicts@), j)));
    }
    out
}

/// A peer is met: no package of that name is here, its range or the package's
/// version cannot be read, or the range admits the version that the package
/// would be at.
pub open spec fn is_met(items: Seq<Dep>, peer: (Seq<char>, Seq<char>)) -> bool {
    match last_named(items, peer.0) {
        Some(j) => match ranges::npm_admits(peer.1, prospect(items[j])) {
            Some(answer) => answer,
            None => true,
        },
        None => true,
    }
}

/// Whether peer `k` of package `i` is met.
pub open spec fn peer_met(items: Seq<Dep>) -> spec_fn(int, int) -> bool {
    |i: int, k: int| is_met(items, items[i].peers[k])
}

/// The verdicts say which peers are met.
spec fn judged(items: Seq<Dep>, verdicts: Seq<Vec<bool>>) -> bool {
    &&& complete(items, verdicts)
    &&& forall|i: int, k: int|
        0 <= i < items.len() && 0 <= k < items[i].peers.len() ==> #[trigger] verdict(verdicts)(
            i,
            k,
        ) == is_met(items, items[i].peers[k])
}

proof fn lemma_same_conflicts_from(
    items: Seq<Dep>,
    verdicts: Seq<Vec<bool>>,
    i: int,
    n: int,
    j: int,
)
    requires
        judged(items, verdicts),
        0 <= i < items.len(),
        n <= items[i].peers.len(),
    ensures
        conflicts_from(items, verdict(verdicts), i, n, j) == conflicts_from(
            items,
            peer_met(items),
            i,
            n,
            j,
        ),
    decreases n,
{
    if n > 0 {
        lemma_same_conflicts_from(items, verdicts, i, n - 1, j);
        assert(verdict(verdicts)(i, n - 1) == peer_met(items)(i, n - 1));
    }
}

proof fn lemma_same_conflicts(items: Seq<Dep>, verdicts: Seq<Vec<bool>>, m: int, j: int)
    requires
        judged(items, verdicts),
        m <= items.len(),
    ensures
        conflicts_with(items, verdict(verdicts), m, j) == conflicts_with(
            items,
            peer_met(items),
            m,
            j,
        ),
    decreases m,
{
    if m > 0 {
        lemma_same_conflicts(items, verdicts, m - 1, j);
        lemma_same_conflicts_from(items, verdicts, m - 1, items[m - 1].peers.len() as int, j);
    }
}

/// The ranges of all peers that are here can be read.
pub open spec fn peers_readable(items: Seq<Dep>) -> bool {
    forall|i: int, k: int|
        0 <= i < items.len() && 0 <= k < items[i].peers.len() && last_named(
            items,
            items[i].peers[k].0,
        ) is Some ==> ranges::readable((#[trigger] items[i].peers[k]).1)
}

fn judge(items: &Vec<Dependency>) -> (r: Vec<Vec<bool>>)
    requires
        peers_readable(deps(items@)),
    ensures
        judged(deps(items@), r@),
{
    let ghost all = deps(items@);
    let mut out: Vec<Vec<bool>> = Vec::new();
    for i in 0..items.len()
        invariant
            all == deps(items@),
            peers_readable(all),
            out@.len() == i,
            forall|h: int|
                0 <= h < i ==> (#[trigger] out@[h])@.len() == all[h].peers.len(),
            forall|h: int, k: int|
                0 <= h < i && 0 <= k < all[h].peers.len() ==> #[trigger] verdict(out@)(h, k)
                    == is_met(all, all[h].peers[k]),
    {
        let dep: &Dependency = &items[i];
        let mut row: Vec<bool> = Vec::new();
        for k in 0..dep.peer_deps.len()
            invariant
                all == deps(items@),
                peers_readable(all),
                i < items.len(),
                *dep == items@[i as int],
                row@.len() == k,
                forall|h: int|
                    0 <= h < k ==> (#[trigger] row@[h]) == is_met(all, all[i as int].peers[h]),
        {
            let peer: &(String, String) = &dep.peer_deps[k];
            assert(all[i as int].peers[k as int] == chars::pair(*peer));
            let met: bool = match find_named(items, peer.0.as_str()) {
                Some(j) => {
                    let ghost named = all[i as int].peers[k as int];
                    assert(ranges::readable(named.1));
                    assert(all[j as int] == items@[j as int]@);
                    match ranges::npm_satisfies(peer.1.as_str(), prospect_of(&items[j])) {
                        Some(answer) => answer,
                        None => true,
                    }
                },
                None => true,
            };
            row.push(met);
        }
        let ghost sofar = out@;
        out.push(row);
        assert forall|h: int, k: int| 0 <= h < i + 1 && 0 <= k < all[h].peers.len() implies
            #[trigger] verdict(out@)(h, k) == is_met(all, all[h].peers[k]) by {
            if h < i {
                assert(out@[h] == sofar[h]);
                assert(verdict(sofar)(h, k) == is_met(all, all[h].peers[k]));
            } else {
                assert(row@[k] == is_met(all, all[i as int].peers[k]));
            }
        }
    }
    out
}

/// The packages with what holds each of them back.
pub open spec fn after_peers(items: Seq<Dep>) -> Seq<Dep> {
    Seq::new(items.len(), |j: int| held_back(items, peer_met(items), j))
}

/// The packages with the conflicts that hold each of them back: a package's
/// latest version needs a peer in a range that does not admit the version which
/// that peer would be at.
pub fn resolve_peers(items: &Vec<Dependency>) -> (r: Vec<Dependency>)
    requires
        peers_readable(deps(items@)),
    ensures
        deps(r@) == after_peers(deps(items@)),
{
    let verdicts: Vec<Vec<bool>> = judge(items);
    let r: Vec<Dependency> = hold_back(items, &verdicts);
    proof {
        let all = deps(items@);
        assert forall|j: int| 0 <= j < all.len() implies deps(r@)[j] == held_back(
            all,
            peer_met(all),
            j,
        ) by {
            lemma_same_conflicts(all, verdicts@, all.len() as int, j);
        }
        assert(deps(r@) =~= after_peers(all));
    }
    r
}

/// A package is held back exactly where a package here needs it in a range that
/// does not admit the version which it would be at.
pub proof fn law_held_back_where_not_met(items: Seq<Dep>, j: int)
    requires
        0 <= j < items.len(),
        items[j].held_back.len() == 0,
    ensures
        held_back(items, peer_met(items), j).held_back.len() > 0 <==> exists|i: int, k: int|
            0 <= i < items.len() && 0 <= k < items[i].peers.len() && last_named(
                items,
                items[i].peers[k].0,
            ) == Some(j) && !is_met(items, #[trigger] items[i].peers[k]),
{
    lemma_conflict_exists(items, items.len() as int, j);
}

proof fn lemma_conflict_exists(items: Seq<Dep>, m: int, j: int)
    requires
        m <= items.len(),
    ensures
        conflicts_with(items, peer_met(items), m, j).len() > 0 <==> exists|i: int, k: int|
            0 <= i < m && 0 <= k < items[i].peers.len() && last_named(items, items[i].peers[k].0)
                == Some(j) && !is_met(items, #[trigger] items[i].peers[k]),
    decreases m,
{
    if m > 0 {
        lemma_conflict_exists(items, m - 1, j);
        lemma_conflict_from_exists(items, m - 1, items[m - 1].peers.len() as int, j);
    }
}

proof fn lemma_conflict_from_exists(items: Seq<Dep>, i: int, n: int, j: int)
    requires
        0 <= i < items.len(),
        n <= items[i].peers.len(),
    ensures
        conflicts_from(items, peer_met(items), i, n, j).len() > 0 <==> exists|k: int|
            0 <= k < n && last_named(items, items[i].peers[k].0) == Some(j) && !is_met(
                items,
                #[trigger] items[i].peers[k],
            ),
    decreases n,
{
    if n > 0 {
        lemma_conflict_from_exists(items, i, n - 1, j);
        assert(peer_met(items)(i, n - 1) == is_met(items, items[i].peers[n - 1]));
    }
}

/// All ranges that a lookup's peers bring can be read.
pub fn are_peers_readable(items: &Vec<Dependency>) -> (r: bool)
    ensures
        r == peers_readable(deps(items@)),
{
    let ghost all = deps(items@);
    for i in 0..items.len()
        invariant
            all == deps(items@),
            forall|h: int, k: int|
                0 <= h < i && 0 <= k < all[h].peers.len() && last_named(
                    all,
                    all[h].peers[k].0,
                ) is Some ==> ranges::readable((#[trigger] all[h].peers[k]).1),
    {
        let dep: &Dependency = &items[i];
        for k in 0..dep.peer_deps.len()
            invariant
                all == deps(items@),
                i < items.len(),
                *dep == items@[i as int],
                forall|h: int|
                    0 <= h < k && last_named(all, all[i as int].peers[h].0) is Some
                        ==> ranges::readable((#[trigger] all[i as int].peers[h]).1),
        {
            let peer: &(String, String) = &dep.peer_deps[k];
            assert(all[i as int].peers[k as int] == chars::pair(*peer));
            if find_named(items, peer.0.as_str()).is_some() && !ranges::is_readable(
                peer.1.as_str(),
            ) {
                assert(!ranges::readable(all[i as int].peers[k as int].1));
                return false;
            }
        }
    }
    true
}

/// The range to write: the latest version, behind what stood before the first digit
/// where ranges are preserved.
pub open spec fn new_version(old: Seq<char>, latest: Seq<char>, preserve: bool) -> Seq<char> {
    if preserve {
        range_prefix(old) + latest
    } else {
        latest
    }
}

pub fn next_version(old: &str, latest: &str, preserve: bool) -> (r: String)
    ensures
        r@ == new_version(old@, latest@, preserve),
{
    if preserve {
        let mut out: String = prefix_of(old).to_owned();
        out.append(latest);
        out
    } else {
        latest.to_owned()
    }
}

/// Where to write for an update, and what: the entry of the package in its
/// section.
pub open spec fn edit_of(doc: Tree, dep: Dep, preserve: bool) -> Option<
    (Seq<Stride>, Seq<char>),
> {
    match (dep.latest, section_name(dep.dep_type)) {
        (Some(latest), Some(section)) => match child(doc, section) {
            Some(table) => match child(table, dep.name) {
                Some(old) => Some(
                    (
                        seq![Stride::Key(section), Stride::Key(dep.name)],
                        new_version(text_or_empty(Some(old)), latest, preserve),
                    ),
                ),
                None => None,
            },
            None => None,
        },
        _ => None,
    }
}

/// The manifest with one update applied.
pub open spec fn edited(doc: Tree, dep: Dep, preserve: bool) -> Tree {
    match edit_of(doc, dep, preserve) {
        Some((path, version)) => put(doc, path, version),
        None => doc,
    }
}

/// The manifest with the updates applied, one after another.
pub open spec fn updated(doc: Tree, updates: Seq<Dep>, preserve: bool) -> Tree
    decreases updates.len(),
{
    if updates.len() == 0 {
        doc
    } else {
        edited(updated(doc, updates.drop_last(), preserve), updates.last(), preserve)
    }
}

fn plan_edit(doc: &Node, dep: &Dependency, preserve: bool) -> (r: Option<(&'static str, String)>)
    ensures
        match r {
            Some((section, version)) => edit_of(doc@, dep@, preserve) == Some(
                (seq![Stride::Key(section@), Stride::Key(dep.name@)], version@),
            ),
            None => edit_of(doc@, dep@, preserve) is None,
        },
{
    let latest: &str = match &dep.latest_version {
        Some(latest) => latest.as_str(),
        None => {
            return None;
        },
    };
    match section_of(dep.dep_type) {
        Some(section) => match doc.get(section) {
            Some(table) => match table.get(dep.name.as_str()) {
                Some(entry) => {
                    let old: &str = match entry.as_text() {
                        Some(old) => old,
                        None => "",
                    };
                    proof {
                        reveal_strlit("");
                        assert(old@ =~= text_or_empty(Some(entry@)));
                    }
                    Some((section, next_version(old, latest, preserve)))
                },
                None => None,
            },
            None => None,
        },
        None => None,
    }
}

proof fn lemma_edit_reachable(doc: Tree, dep: Dep, preserve: bool)
    requires
        edit_of(doc, dep, preserve) is Some,
    ensures
        reachable(doc, (edit_of(doc, dep, preserve)->0).0),
        at(doc, (edit_of(doc, dep, preserve)->0).0) is Some,
{
    reveal_with_fuel(reachable, 3);
    reveal_with_fuel(at, 3);
    let path = (edit_of(doc, dep, preserve)->0).0;
    assert(path.skip(1)[0] == Stride::Key(dep.name));
    assert(path.skip(1).skip(1).len() == 0);
}

/// The value of a manifest with the updates applied, one after another.
pub open spec fn updated_value(
    value: serde_json::Value,
    updates: Seq<Dep>,
    preserve: bool,
) -> serde_json::Value
    decreases updates.len(),
{
    if updates.len() == 0 {
        value
    } else {
        let before = updated_value(value, updates.drop_last(), preserve);
        let dep = updates.last();
        match edit_of(json_held(before), dep, preserve) {
            Some((_, version)) => json_with(
                before,
                section_name(dep.dep_type)->0,
                dep.name,
                version,
            ),
            None => before,
        }
    }
}

/// The text of a manifest with the updates applied; an error where it is no JSON.
pub fn update_manifest(content: &str, updates: &Vec<Dependency>, preserve: bool) -> (r: Result<
    String,
    String,
>)
    ensures
        match json_of(content@) {
            Some(value) => {
                let new = updated_value(value, deps(updates@), preserve);
                &&& r is Ok
                &&& r->Ok_0@ == json_pretty(new) + "\n"@
                &&& json_held(new) == updated(json_held(value), deps(updates@), preserve)
                &&& json_says(r->Ok_0@, json_held(new))
            },
            None => r is Err,
        },
{
    let mut value: serde_json::Value = match parse_json(content) {
        Ok(value) => value,
        Err(e) => {
            return Err(e);
        },
    };
    let ghost first = value;
    let ghost doc = json_held(value);
    let ghost all = deps(updates@);
    for i in 0..updates.len()
        invariant
            all == deps(updates@),
            value == updated_value(first, all.take(i as int), preserve),
            json_held(value) == updated(doc, all.take(i as int), preserve),
            documents::json_faithful(value),
    {
        proof {
            assert(all.take(i + 1).drop_last() =~= all.take(i as int));
            assert(all.take(i + 1).last() == updates@[i as int]@);
        }
        let node: Node = json_node(&value);
        if let Some((section, version)) = plan_edit(&node, &updates[i], preserve) {
            proof {
                lemma_edit_reachable(node@, updates@[i as int]@, preserve);
            }
            json_set(&mut value, section, updates[i].name.as_str(), version.as_str());
        }
    }
    assert(all.take(all.len() as int) =~= all);
    let mut out: String = json_print(&value);
    out.append("\n");
    Ok(out)
}

/// Two updates write to the entry of the same package.
pub open spec fn same_entry(a: Dep, b: Dep) -> bool {
    section_name(a.dep_type) == section_name(b.dep_type) && a.name == b.name
}

/// The path leads to another section than the update's, or there to another entry.
pub open spec fn is_elsewhere(q: Seq<Stride>, dep: Dep) -> bool {
    &&& q.len() >= 1
    &&& q[0] is Key
    &&& Some(q[0]->Key_0) == section_name(dep.dep_type) ==> q.len() >= 2 && q[1] is Key
        && q[1]->Key_0 != dep.name
}

proof fn lemma_entries_diverge(doc: Tree, dep: Dep, preserve: bool, q: Seq<Stride>)
    requires
        edit_of(doc, dep, preserve) is Some,
        is_elsewhere(q, dep),
    ensures
        diverge((edit_of(doc, dep, preserve)->0).0, q),
{
    reveal_with_fuel(diverge, 3);
    let path = (edit_of(doc, dep, preserve)->0).0;
    assert(path[0] == Stride::Key(section_name(dep.dep_type)->0));
    assert(path.skip(1)[0] == Stride::Key(dep.name));
    if q.len() >= 2 {
        assert(q.skip(1)[0] == q[1]);
    }
}

/// An update changes nothing but the entry of its package: whatever value stands
/// under another key of a section, or outside it, stays.
pub proof fn law_other_entries_stay(
    doc: Tree,
    updates: Seq<Dep>,
    preserve: bool,
    q: Seq<Stride>,
)
    requires
        forall|j: int| 0 <= j < updates.len() ==> is_elsewhere(q, #[trigger] updates[j]),
    ensures
        at(updated(doc, updates, preserve), q) == at(doc, q),
    decreases updates.len(),
{
    if updates.len() > 0 {
        let init = updates.drop_last();
        let before = updated(doc, init, preserve);
        let dep = updates.last();
        assert forall|j: int| 0 <= j < init.len() implies is_elsewhere(q, #[trigger] init[j]) by {
            assert(init[j] == updates[j]);
        }
        assert(is_elsewhere(q, updates[updates.len() - 1]));
        law_other_entries_stay(doc, init, preserve, q);
        if let Some((path, version)) = edit_of(before, dep, preserve) {
            lemma_edit_reachable(before, dep, preserve);
            lemma_entries_diverge(before, dep, preserve, q);
            law_put(before, path, version);
            assert(at(put(before, path, version), q) == at(before, q));
        }
    }
}

/// Once all updates are applied, each that was written reads back as written,
/// unless a later one is of the same package.
pub proof fn law_updates_read_back(doc: Tree, updates: Seq<Dep>, preserve: bool, i: int)
    requires
        0 <= i < updates.len(),
        edit_of(updated(doc, updates.take(i), preserve), updates[i], preserve) is Some,
        forall|j: int| i < j < updates.len() ==> !same_entry(updates[i], #[trigger] updates[j]),
    ensures
        ({
            let edit = edit_of(updated(doc, updates.take(i), preserve), updates[i], preserve)->0;
            text_at(updated(doc, updates, preserve), edit.0) == Some(edit.1)
        }),
    decreases updates.len(),
{
    let first = updated(doc, updates.take(i), preserve);
    let (path, version) = edit_of(first, updates[i], preserve)->0;
    let init = updates.drop_last();
    if i == updates.len() - 1 {
        assert(updates.take(i) =~= init);
        lemma_edit_reachable(first, updates[i], preserve);
        law_put(first, path, version);
    } else {
        assert(init.take(i) =~= updates.take(i));
        assert(init[i] == updates[i]);
        assert forall|j: int| i < j < init.len() implies !same_entry(
            init[i],
            #[trigger] init[j],
        ) by {
            assert(init[j] == updates[j]);
        }
        law_updates_read_back(doc, init, preserve, i);
        let before = updated(doc, init, preserve);
        let dep = updates.last();
        assert(!same_entry(updates[i], dep));
        if let Some((later, text)) = edit_of(before, dep, preserve) {
            lemma_edit_reachable(before, dep, preserve);
            lemma_entries_diverge(before, dep, preserve, path);
            law_put(before, later, text);
            assert(at(put(before, later, text), path) == at(before, path));
        }
    }
}

} // verus!
