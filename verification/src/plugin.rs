//! Dependencies, and what every package manager's plugin offers.
use vstd::prelude::*;
use vstd::string::*;
use crate::chars;
use crate::text;

verus! {

/// The group of a manifest that a dependency stands in.
#[derive(Debug, Clone, Copy, PartialEq, Eq, Structural)]
pub enum DepType {
    Normal,
    Dev,
    Build,
    Optional,
}

impl DepType {
    pub open spec fn label_text(self) -> Seq<char> {
        match self {
            DepType::Normal => "dependencies"@,
            DepType::Dev => "dev-dependencies"@,
            DepType::Build => "build-dependencies"@,
            DepType::Optional => "optional"@,
        }
    }

    pub open spec fn short_text(self) -> Seq<char> {
        match self {
            DepType::Normal => "prod"@,
            DepType::Dev => "dev"@,
            DepType::Build => "build"@,
            DepType::Optional => "opt"@,
        }
    }

    /// The heading of the group.
    pub fn label(&self) -> (r: &'static str)
        ensures
            r@ == self.label_text(),
    {
        match self {
            DepType::Normal => "dependencies",
            DepType::Dev => "dev-dependencies",
            DepType::Build => "build-dependencies",
            DepType::Optional => "optional",
        }
    }

    /// The group's short name, which is also how it is displayed.
    pub fn short_label(&self) -> (r: &'static str)
        ensures
            r@ == self.short_text(),
    {
        match self {
            DepType::Normal => "prod",
            DepType::Dev => "dev",
            DepType::Build => "build",
            DepType::Optional => "opt",
        }
    }
}

#[derive(Debug)]
pub struct PeerConflict {
    /// Package that imposes the peer dependency constraint.
    pub blocker: String,
    /// Version of the blocker that has the constraint.
    pub blocker_version: String,
    /// The peer dependency version range required.
    pub required_range: String,
}

/// What a `PeerConflict` says.
pub struct Conflict {
    pub blocker: Seq<char>,
    pub blocker_version: Seq<char>,
    pub required_range: Seq<char>,
}

impl View for PeerConflict {
    type V = Conflict;

    open spec fn view(&self) -> Conflict {
        Conflict {
            blocker: self.blocker@,
            blocker_version: self.blocker_version@,
            required_range: self.required_range@,
        }
    }
}

impl Clone for PeerConflict {
    fn clone(&self) -> (r: Self)
        ensures
            r@ == self@,
    {
        PeerConflict {
            blocker: self.blocker.clone(),
            blocker_version: self.blocker_version.clone(),
            required_range: self.required_range.clone(),
        }
    }
}

#[derive(Debug)]
pub struct Dependency {
    pub name: String,
    pub current_version: String,
    pub latest_version: Option<String>,
    pub dep_type: DepType,
    /// Whether the latest version satisfies the current version spec.
    pub satisfied: bool,
    /// Peer dependencies of this package's latest version (name, range).
    pub peer_deps: Vec<(String, String)>,
    /// Peer dependency conflicts: other packages that constrain this one.
    pub held_back_by: Vec<PeerConflict>,
    /// True when registry/API lookup failed for this dependency.
    pub check_failed: bool,
}

/// What a `Dependency` says.
#[verifier::ext_equal]
pub struct Dep {
    pub name: Seq<char>,
    pub current: Seq<char>,
    pub latest: Option<Seq<char>>,
    pub dep_type: DepType,
    pub satisfied: bool,
    pub peers: Seq<(Seq<char>, Seq<char>)>,
    pub held_back: Seq<Conflict>,
    pub check_failed: bool,
}

impl View for Dependency {
    type V = Dep;

    open spec fn view(&self) -> Dep {
        Dep {
            name: self.name@,
            current: self.current_version@,
            latest: chars::opt(self.latest_version),
            dep_type: self.dep_type,
            satisfied: self.satisfied,
            peers: chars::pairs(self.peer_deps@),
            held_back: conflicts(self.held_back_by@),
            check_failed: self.check_failed,
        }
    }
}

pub open spec fn conflicts(items: Seq<PeerConflict>) -> Seq<Conflict> {
    items.map_values(|c: PeerConflict| c@)
}

/// What a list of dependencies says.
pub open spec fn deps(items: Seq<Dependency>) -> Seq<Dep> {
    items.map_values(|d: Dependency| d@)
}

impl Dep {
    /// A dependency that no registry has been asked about.
    pub open spec fn fresh(name: Seq<char>, current: Seq<char>, dep_type: DepType) -> Dep {
        Dep {
            name,
            current,
            latest: None,
            dep_type,
            satisfied: false,
            peers: seq![],
            held_back: seq![],
            check_failed: false,
        }
    }

    /// A newer version is known that the current version spec does not admit.
    pub open spec fn has_update(self) -> bool {
        self.latest is Some && !self.satisfied
    }
}

impl Dep {
    /// The dependency once its latest version is known.
    pub open spec fn checked(self, latest: Seq<char>, satisfied: bool) -> Dep {
        Dep { latest: Some(latest), satisfied, ..self }
    }

    /// The dependency once its lookup has failed.
    pub open spec fn unchecked(self) -> Dep {
        Dep { check_failed: true, ..self }
    }
}

impl Dependency {
    /// The dependency with its latest version.
    pub fn with_latest(self, latest: String, satisfied: bool) -> (r: Dependency)
        ensures
            r@ == self@.checked(latest@, satisfied),
    {
        let r = Dependency { latest_version: Some(latest), satisfied, ..self };
        assert(r@ =~= self@.checked(latest@, satisfied));
        r
    }

    /// The dependency, marked as one whose lookup failed.
    pub fn with_failure(self) -> (r: Dependency)
        ensures
            r@ == self@.unchecked(),
    {
        let r = Dependency { check_failed: true, ..self };
        assert(r@ =~= self@.unchecked());
        r
    }

    pub fn new(name: String, current_version: String, dep_type: DepType) -> (r: Self)
        ensures
            r@ == Dep::fresh(name@, current_version@, dep_type),
    {
        let r = Self {
            name,
            current_version,
            latest_version: None,
            dep_type,
            satisfied: false,
            peer_deps: Vec::new(),
            held_back_by: Vec::new(),
            check_failed: false,
        };
        assert(r@ =~= Dep::fresh(name@, current_version@, dep_type));
        r
    }

    pub fn has_update(&self) -> (r: bool)
        ensures
            r == self@.has_update(),
    {
        self.latest_version.is_some() && !self.satisfied
    }
}

/// A copy of pairs of strings.
pub fn copy_pairs(items: &Vec<(String, String)>) -> (r: Vec<(String, String)>)
    ensures
        chars::pairs(r@) == chars::pairs(items@),
{
    let mut out: Vec<(String, String)> = Vec::new();
    for i in 0..items.len()
        invariant
            chars::pairs(out@) == chars::pairs(items@).take(i as int),
    {
        let ghost sofar = out@;
        out.push((items[i].0.clone(), items[i].1.clone()));
        assert(chars::pairs(out@) =~= chars::pairs(sofar).push(chars::pair(items@[i as int])));
        assert(chars::pairs(items@).take(i + 1) =~= chars::pairs(items@).take(i as int).push(
            chars::pair(items@[i as int]),
        ));
    }
    assert(chars::pairs(items@).take(items@.len() as int) =~= chars::pairs(items@));
    out
}

fn copy_conflicts(items: &Vec<PeerConflict>) -> (r: Vec<PeerConflict>)
    ensures
        conflicts(r@) == conflicts(items@),
{
    let mut out: Vec<PeerConflict> = Vec::new();
    for i in 0..items.len()
        invariant
            conflicts(out@) == conflicts(items@).take(i as int),
    {
        let ghost sofar = out@;
        out.push(items[i].clone());
        assert(conflicts(out@) =~= conflicts(sofar).push(items@[i as int]@));
        assert(conflicts(items@).take(i + 1) =~= conflicts(items@).take(i as int).push(
            items@[i as int]@,
        ));
    }
    assert(conflicts(items@).take(items@.len() as int) =~= conflicts(items@));
    out
}

/// A copy of an optional string.
pub fn copy_opt(s: &Option<String>) -> (r: Option<String>)
    ensures
        chars::opt(r) == chars::opt(*s),
{
    match s {
        Some(t) => Some(t.clone()),
        None => None,
    }
}

impl Clone for Dependency {
    fn clone(&self) -> (r: Self)
        ensures
            r@ == self@,
    {
        let r = Dependency {
            name: self.name.clone(),
            current_version: self.current_version.clone(),
            latest_version: copy_opt(&self.latest_version),
            dep_type: self.dep_type,
            satisfied: self.satisfied,
            peer_deps: copy_pairs(&self.peer_deps),
            held_back_by: copy_conflicts(&self.held_back_by),
            check_failed: self.check_failed,
        };
        assert(r@ =~= self@);
        r
    }
}

/// The dependencies that satisfy `f`, which decides `p`.
pub(crate) fn keep<F: Fn(&Dependency) -> bool>(
    items: &Vec<Dependency>,
    f: F,
    Ghost(p): Ghost<spec_fn(Dep) -> bool>,
) -> (r: Vec<Dependency>)
    requires
        forall|d: &Dependency| f.requires((d,)),
        forall|d: &Dependency, b: bool| f.ensures((d,), b) ==> b == p(d@),
    ensures
        deps(r@) == deps(items@).filter(p),
{
    let mut out: Vec<Dependency> = Vec::new();
    let ghost all = deps(items@);
    proof {
        reveal(Seq::filter);
        assert(all.take(0).filter(p) =~= seq![]);
        assert(deps(out@) =~= seq![]);
    }
    for i in 0..items.len()
        invariant
            forall|d: &Dependency| f.requires((d,)),
            forall|d: &Dependency, b: bool| f.ensures((d,), b) ==> b == p(d@),
            all == deps(items@),
            deps(out@) == all.take(i as int).filter(p),
    {
        proof {
            reveal(Seq::filter);
            assert(all.take(i + 1).drop_last() =~= all.take(i as int));
            assert(all.take(i + 1).last() == items@[i as int]@);
        }
        if f(&items[i]) {
            let ghost sofar = out@;
            out.push(items[i].clone());
            assert(deps(out@) =~= deps(sofar).push(items@[i as int]@));
        }
    }
    assert(all.take(all.len() as int) =~= all);
    out
}

/// A dependency is to be updated: it has an update, and its name is one of the
/// given names, if any are given.
pub open spec fn wanted(names: Seq<Seq<char>>) -> spec_fn(Dep) -> bool {
    |d: Dep| d.has_update() && (names.len() == 0 || names.contains(d.name))
}

/// The dependencies that are to be updated.
pub fn wanted_updates(items: &Vec<Dependency>, names: &Vec<String>) -> (r: Vec<Dependency>)
    ensures
        deps(r@) == deps(items@).filter(wanted(chars::views(names@))),
{
    let test = |d: &Dependency| -> (b: bool)
        ensures
            b == wanted(chars::views(names@))(d@),
    {
        d.has_update() && (names.len() == 0 || text::contains(names, d.name.as_str()))
    };
    keep(items, test, Ghost(wanted(chars::views(names@))))
}

/// The dependency has an update.
pub open spec fn updatable() -> spec_fn(Dep) -> bool {
    |d: Dep| d.has_update()
}

/// The dependencies that have updates.
pub fn updatable_of(items: &Vec<Dependency>) -> (r: Vec<Dependency>)
    ensures
        deps(r@) == deps(items@).filter(updatable()),
{
    let test = |d: &Dependency| -> (b: bool)
        ensures
            b == updatable()(d@),
    {
        d.has_update()
    };
    keep(items, test, Ghost(updatable()))
}

/// What plugins look at in a directory.
#[derive(Debug)]
pub struct Directory {
    /// The names of its files.
    pub files: Vec<String>,
    /// The names of the directories in it.
    pub folders: Vec<String>,
    /// The names of what is in its `.github/workflows`.
    pub workflows: Vec<String>,
    /// The text of its `pyproject.toml`, where that can be read.
    pub pyproject: Option<String>,
}

/// What a `Directory` says.
pub struct Dir {
    pub files: Seq<Seq<char>>,
    pub folders: Seq<Seq<char>>,
    pub workflows: Seq<Seq<char>>,
    pub pyproject: Option<Seq<char>>,
}

impl View for Directory {
    type V = Dir;

    open spec fn view(&self) -> Dir {
        Dir {
            files: chars::views(self.files@),
            folders: chars::views(self.folders@),
            workflows: chars::views(self.workflows@),
            pyproject: chars::opt(self.pyproject),
        }
    }
}

impl Directory {
    /// There is a file of that name.
    pub fn has_file(&self, name: &str) -> (r: bool)
        ensures
            r == self@.files.contains(name@),
    {
        text::contains(&self.files, name)
    }

    /// There is a file or a directory of that name.
    pub fn has_entry(&self, name: &str) -> (r: bool)
        ensures
            r == (self@.files.contains(name@) || self@.folders.contains(name@)),
    {
        text::contains(&self.files, name) || text::contains(&self.folders, name)
    }
}

/// A header: a name, and something about it in brackets.
pub open spec fn titled(name: Seq<char>, about: Seq<char>) -> Seq<char> {
    name + " ("@ + about + ")"@
}

pub fn title(name: &str, about: &str) -> (r: String)
    ensures
        r@ == titled(name@, about@),
{
    let mut out: String = name.to_owned();
    out.append(" (");
    out.append(about);
    out.append(")");
    out
}

/// What a package manager's plugin knows of itself and of a directory.
pub trait Plugin {
    spec fn name_text(&self) -> Seq<char>;

    spec fn file_text(&self) -> Seq<char>;

    spec fn detected(&self, dir: Dir) -> bool;

    spec fn display_text(&self, dir: Dir) -> Seq<char>;

    /// Human-readable name for this plugin (e.g. "Cargo", "npm").
    fn name(&self) -> (r: &'static str)
        ensures
            r@ == self.name_text(),
    ;

    /// The manifest file name this plugin looks for (e.g. "Cargo.toml").
    fn file_name(&self) -> (r: &'static str)
        ensures
            r@ == self.file_text(),
    ;

    /// Returns true if the manifest file exists in `dir`.
    fn detect(&self, dir: &Directory) -> (r: bool)
        ensures
            r == self.detected(dir@),
    ;

    /// Display name for headers, can hold extra context (e.g. detected lock file).
    fn display_name(&self, dir: &Directory) -> (r: String)
        ensures
            r@ == self.display_text(dir@),
    ;
}

/// What a filter keeps: those that were there and that pass.
pub proof fn lemma_filtered<A>(items: Seq<A>, p: spec_fn(A) -> bool)
    ensures
        forall|x: A| #[trigger] items.filter(p).contains(x) <==> items.contains(x) && p(x),
    decreases items.len(),
{
    reveal(Seq::filter);
    if items.len() > 0 {
        let init = items.drop_last();
        lemma_filtered(init, p);
        let before = init.filter(p);
        let all = items.filter(p);
        assert forall|x: A| #[trigger] all.contains(x) <==> items.contains(x) && p(x) by {
            if all.contains(x) {
                let i = choose|i: int| 0 <= i < all.len() && all[i] == x;
                if i < before.len() {
                    assert(before[i] == x);
                    assert(before.contains(x));
                    let k = choose|k: int| 0 <= k < init.len() && init[k] == x;
                    assert(items[k] == x);
                } else {
                    assert(items[items.len() - 1] == x);
                }
            }
            if items.contains(x) && p(x) {
                let k = choose|k: int| 0 <= k < items.len() && items[k] == x;
                if k < init.len() {
                    assert(init[k] == x);
                    assert(before.contains(x));
                    let i = choose|i: int| 0 <= i < before.len() && before[i] == x;
                    assert(all[i] == x);
                } else {
                    assert(all[all.len() - 1] == x);
                }
            }
        }
    }
}

/// The updates that are wanted are the dependencies of which a newer version is
/// known that their version spec does not admit, all of them where no names are
/// given, and else those whose name is given.
pub proof fn law_wanted_updates(items: Seq<Dep>, names: Seq<Seq<char>>)
    ensures
        forall|d: Dep| #[trigger]
            items.filter(wanted(names)).contains(d) <==> {
                &&& items.contains(d)
                &&& d.latest is Some
                &&& !d.satisfied
                &&& names.len() == 0 || exists|i: int|
                    0 <= i < names.len() && #[trigger] names[i] == d.name
            },
{
    lemma_filtered(items, wanted(names));
}

/// The dependencies that have updates are those of which a newer version is known
/// that their version spec does not admit.
pub proof fn law_updatable(items: Seq<Dep>)
    ensures
        forall|d: Dep| #[trigger]
            items.filter(updatable()).contains(d) <==> items.contains(d) && d.latest is Some
                && !d.satisfied,
{
    lemma_filtered(items, updatable());
}

/// A lookup changes nothing but what it found: the latest version and whether it is
/// admitted, or that it failed. A failed lookup brings no update.
pub proof fn law_lookup_outcomes(dep: Dep, latest: Seq<char>, satisfied: bool)
    ensures
        dep.checked(latest, satisfied).latest == Some(latest),
        dep.checked(latest, satisfied).satisfied == satisfied,
        dep.checked(latest, satisfied).has_update() == !satisfied,
        dep.checked(latest, satisfied) == (Dep { latest: Some(latest), satisfied, ..dep }),
        dep.unchecked() == (Dep { check_failed: true, ..dep }),
        dep.latest is None ==> !dep.unchecked().has_update(),
{
}

/// A text is the latest version behind the longest start of the old text that has
/// no digit.
pub open spec fn is_behind_prefix(w: Seq<char>, old: Seq<char>, latest: Seq<char>) -> bool {
    let p = w.len() - latest.len();
    &&& 0 <= p <= old.len()
    &&& w.skip(p) == latest
    &&& w.take(p) == old.take(p)
    &&& forall|i: int| 0 <= i < p ==> !('0' <= #[trigger] old[i] && old[i] <= '9')
    &&& p < old.len() ==> '0' <= old[p] && old[p] <= '9'
}

/// What stands before the first digit, and the latest version.
pub proof fn lemma_behind_prefix(old: Seq<char>, latest: Seq<char>)
    ensures
        is_behind_prefix(chars::take_while(old, chars::not_digit()) + latest, old, latest),
{
    let w = chars::take_while(old, chars::not_digit()) + latest;
    let p = w.len() - latest.len();
    chars::lemma_leading(old, chars::not_digit());
    assert(w.skip(p) =~= latest);
    assert(w.take(p) =~= old.take(p));
    assert forall|i: int| 0 <= i < p implies !('0' <= #[trigger] old[i] && old[i] <= '9') by {
        assert(chars::not_digit()(old[i]));
    }
    if p < old.len() {
        assert(!chars::not_digit()(old[p]));
    }
}

} // verus!
