//! Rust crates in `Cargo.toml`.
use vstd::prelude::*;
use vstd::string::*;
use crate::chars;
use crate::documents;
use crate::documents::{
    document_held, document_node, document_of, document_print, document_set, document_text,
    document_tree, document_with, has_short_quotes, parse_document, read_toml, short_quotes,
    toml_finds, toml_tree,
};
use crate::plugin::{Dep, DepType, Dependency, Dir, Directory, Plugin, deps, title, titled};
use crate::plugins::requirements::{prefix_of, range_prefix};
use crate::ranges;
use crate::text;
use crate::tree::{
    Node, Step, Stride, Tree, at, child, diverge, entries_of, entry_trees, law_put, put, reachable,
    step_to, strides, text_at,
};

verus! {

/// Looks after `Cargo.toml`.
#[derive(Debug, Clone, Copy)]
pub struct CargoPlugin;

impl CargoPlugin {
    pub fn new() -> (r: Self)
        ensures
            r == CargoPlugin,
    {
        CargoPlugin
    }
}

impl Plugin for CargoPlugin {
    open spec fn name_text(&self) -> Seq<char> {
        "Cargo"@
    }

    open spec fn file_text(&self) -> Seq<char> {
        "Cargo.toml"@
    }

    open spec fn detected(&self, dir: Dir) -> bool {
        dir.files.contains("Cargo.toml"@) || dir.folders.contains("Cargo.toml"@)
    }

    open spec fn display_text(&self, dir: Dir) -> Seq<char> {
        titled("Cargo"@, "Cargo.toml"@)
    }

    fn name(&self) -> (r: &'static str) {
        "Cargo"
    }

    fn file_name(&self) -> (r: &'static str) {
        "Cargo.toml"
    }

    fn detect(&self, dir: &Directory) -> (r: bool) {
        dir.has_entry("Cargo.toml")
    }

    fn display_name(&self, dir: &Directory) -> (r: String) {
        title("Cargo", "Cargo.toml")
    }
}

/// The version that an entry of a dependency section asks for: the entry itself,
/// or its `version`.
pub open spec fn asked_version(t: Tree) -> Option<Seq<char>> {
    match t {
        Tree::Text(version) => Some(version),
        _ => match child(t, "version"@) {
            Some(Tree::Text(version)) => Some(version),
            _ => None,
        },
    }
}

/// The dependencies that the entries of a section declare.
pub open spec fn section_deps(entries: Seq<(Seq<char>, Tree)>, dep_type: DepType) -> Seq<Dep>
    decreases entries.len(),
{
    if entries.len() == 0 {
        seq![]
    } else {
        let before = section_deps(entries.drop_last(), dep_type);
        match asked_version(entries.last().1) {
            Some(version) => before.push(Dep::fresh(entries.last().0, version, dep_type)),
            None => before,
        }
    }
}

fn find_version(node: &Node) -> (r: Option<&str>)
    ensures
        match r {
            Some(s) => asked_version(node@) == Some(s@),
            None => asked_version(node@) is None,
        },
{
    match node.as_text() {
        Some(version) => Some(version),
        None => match node.get("version") {
            Some(inner) => inner.as_text(),
            None => None,
        },
    }
}

/// The dependencies of a section.
pub fn extract_deps(section: &Node, dep_type: DepType) -> (r: Vec<Dependency>)
    ensures
        deps(r@) == section_deps(entries_of(section@), dep_type),
{
    let mut out: Vec<Dependency> = Vec::new();
    assert(deps(out@) =~= seq![]);
    match section.as_entries() {
        Some(entries) => {
            let ghost all = entry_trees(entries@);
            for i in 0..entries.len()
                invariant
                    all == entry_trees(entries@),
                    deps(out@) == section_deps(all.take(i as int), dep_type),
            {
                assert(all.take(i + 1).drop_last() =~= all.take(i as int));
                assert(all.take(i + 1).last() == (entries@[i as int].0@, entries@[i as int].1@));
                if let Some(version) = find_version(&entries[i].1) {
                    let ghost sofar = out@;
                    let dep: Dependency = Dependency::new(
                        entries[i].0.clone(),
                        version.to_owned(),
                        dep_type,
                    );
                    out.push(dep);
                    assert(deps(out@) =~= deps(sofar).push(dep@));
                }
            }
            assert(all.take(all.len() as int) =~= all);
        },
        None => {},
    }
    out
}

/// The section of a manifest that holds the dependencies of a group.
pub open spec fn section_name(dep_type: DepType) -> Seq<char> {
    match dep_type {
        DepType::Normal => "dependencies"@,
        DepType::Dev => "dev-dependencies"@,
        DepType::Build => "build-dependencies"@,
        DepType::Optional => "dependencies"@,
    }
}

fn section_of(dep_type: DepType) -> (r: &'static str)
    ensures
        r@ == section_name(dep_type),
{
    match dep_type {
        DepType::Normal => "dependencies",
        DepType::Dev => "dev-dependencies",
        DepType::Build => "build-dependencies",
        DepType::Optional => "dependencies",
    }
}

/// The dependencies of one group.
pub open spec fn group_deps(doc: Tree, dep_type: DepType) -> Seq<Dep> {
    match child(doc, section_name(dep_type)) {
        Some(section) => section_deps(entries_of(section), dep_type),
        None => seq![],
    }
}

/// The dependencies that a manifest declares.
pub open spec fn listed(doc: Tree) -> Seq<Dep> {
    group_deps(doc, DepType::Normal) + group_deps(doc, DepType::Dev) + group_deps(
        doc,
        DepType::Build,
    )
}

fn extract_group(doc: &Node, dep_type: DepType) -> (r: Vec<Dependency>)
    ensures
        deps(r@) == group_deps(doc@, dep_type),
{
    match doc.get(section_of(dep_type)) {
        Some(section) => extract_deps(section, dep_type),
        None => {
            let r: Vec<Dependency> = Vec::new();
            assert(deps(r@) =~= seq![]);
            r
        },
    }
}

/// The dependencies of a manifest that was read.
pub fn manifest_dependencies(doc: &Node) -> (r: Vec<Dependency>)
    ensures
        deps(r@) == listed(doc@),
{
    let mut out: Vec<Dependency> = extract_group(doc, DepType::Normal);
    let mut dev: Vec<Dependency> = extract_group(doc, DepType::Dev);
    let mut build: Vec<Dependency> = extract_group(doc, DepType::Build);
    let ghost (a, b, c) = (out@, dev@, build@);
    out.append(&mut dev);
    out.append(&mut build);
    assert(deps(out@) =~= deps(a) + deps(b) + deps(c));
    out
}

/// The dependencies that the text of a manifest declares; an error where it is
/// no TOML.
pub fn list_dependencies(content: &str) -> (r: Result<Vec<Dependency>, String>)
    ensures
        match toml_tree(content@) {
            Some(doc) => r matches Ok(items) && deps(items@) == listed(doc),
            None => r is Err,
        },
{
    match read_toml(content) {
        Ok(doc) => Ok(manifest_dependencies(&doc)),
        Err(e) => Err(e),
    }
}

/// Where the registry lists the dependencies of a crate's version.
pub fn dependencies_url(name: &str, version: &str) -> (r: String)
    ensures
        r@ == "https://crates.io/api/v1/crates/"@ + name@ + "/"@ + version@ + "/dependencies"@,
{
    let mut out: String = "https://crates.io/api/v1/crates/".to_owned();
    out.append(name);
    out.append("/");
    out.append(version);
    out.append("/dependencies");
    out
}

/// Where the registry describes a crate.
pub fn crate_url(name: &str) -> (r: String)
    ensures
        r@ == "https://crates.io/api/v1/crates/"@ + name@,
{
    let mut out: String = "https://crates.io/api/v1/crates/".to_owned();
    out.append(name);
    out
}

/// A version without its build metadata, which requirements do not have.
pub fn without_build(version: &str) -> (r: &str)
    ensures
        r@ == chars::before(version@, '+'),
{
    text::before(version, '+')
}

/// The requirement admits the latest version; where one of the two cannot be
/// read, they are the same text.
pub open spec fn satisfies(
    current: Seq<char>,
    latest: Seq<char>,
    admitted: Option<bool>,
) -> bool {
    match admitted {
        Some(answer) => answer,
        None => latest == current,
    }
}

/// The dependency after a lookup that gave its latest version or failed.
pub open spec fn resolved(dep: Dep, latest: Option<Seq<char>>, admitted: Option<bool>) -> Dep {
    match latest {
        Some(version) => dep.checked(version, satisfies(dep.current, version, admitted)),
        None => dep.unchecked(),
    }
}

/// The dependency after a lookup, given whether its requirement admits the
/// latest version.
pub fn settle(dep: Dependency, latest: Option<String>, admitted: Option<bool>) -> (r: Dependency)
    ensures
        r@ == resolved(dep@, chars::opt(latest), admitted),
{
    match latest {
        Some(version) => {
            let satisfied: bool = match admitted {
                Some(answer) => answer,
                None => text::eq(version.as_str(), dep.current_version.as_str()),
            };
            dep.with_latest(version, satisfied)
        },
        None => dep.with_failure(),
    }
}

/// The latest version to use of a published one: that without its build metadata.
pub open spec fn usable(published: Option<Seq<char>>) -> Option<Seq<char>> {
    match published {
        Some(version) => Some(chars::before(version, '+')),
        None => None,
    }
}

/// The dependency after its lookup: the requirement is held against the version that
/// can be used.
pub open spec fn looked_up(dep: Dep, published: Option<Seq<char>>) -> Dep {
    resolved(
        dep,
        usable(published),
        match usable(published) {
            Some(version) => ranges::semver_admits(dep.current, version),
            None => None,
        },
    )
}

/// The dependency after a lookup that gave the version that is published or failed.
pub fn resolve(dep: Dependency, published: Option<String>) -> (r: Dependency)
    ensures
        r@ == looked_up(dep@, chars::opt(published)),
{
    match published {
        Some(version) => {
            let latest: String = without_build(version.as_str()).to_owned();
            let admitted: Option<bool> = ranges::semver_matches(
                dep.current_version.as_str(),
                latest.as_str(),
            );
            settle(dep, Some(latest), admitted)
        },
        None => settle(dep, None, None),
    }
}

/// The version to write: the latest, behind the operator that stood there where
/// ranges are preserved. A text without a digit is no operator and a version.
pub open spec fn new_version(old: Seq<char>, latest: Seq<char>, preserve: bool) -> Seq<char> {
    if preserve && range_prefix(old).len() < old.len() {
        range_prefix(old) + latest
    } else {
        latest
    }
}

pub fn next_version(old: &str, latest: &str, preserve: bool) -> (r: String)
    ensures
        r@ == new_version(old@, latest@, preserve),
{
    let prefix: &str = prefix_of(old);
    if preserve && prefix.unicode_len() < old.unicode_len() {
        let mut out: String = prefix.to_owned();
        out.append(latest);
        out
    } else {
        latest.to_owned()
    }
}

/// The text of a value; nothing where it is no text.
pub open spec fn text_or_empty(t: Option<Tree>) -> Seq<char> {
    match t {
        Some(Tree::Text(s)) => s,
        _ => seq![],
    }
}

/// Where to write for an update, and what: the entry of the dependency in its
/// section, or the entry's `version`. An entry of another form stays.
pub open spec fn edit_of(doc: Tree, dep: Dep, preserve: bool) -> Option<
    (Seq<Stride>, Seq<char>),
> {
    let section = section_name(dep.dep_type);
    match (dep.latest, child(doc, section)) {
        (Some(latest), Some(table)) => {
            let path = seq![Stride::Key(section), Stride::Key(dep.name)];
            match child(table, dep.name) {
                Some(Tree::Text(old)) => Some((path, new_version(old, latest, preserve))),
                Some(Tree::Inline(inner)) => match child(Tree::Inline(inner), "version"@) {
                    Some(old) => Some(
                        (
                            path.push(Stride::Key("version"@)),
                            new_version(text_or_empty(Some(old)), latest, preserve),
                        ),
                    ),
                    None => None,
                },
                Some(Tree::Table(inner)) => Some(
                    (
                        path.push(Stride::Key("version"@)),
                        new_version(
                            text_or_empty(child(Tree::Table(inner), "version"@)),
                            latest,
                            preserve,
                        ),
                    ),
                ),
                _ => None,
            }
        },
        _ => None,
    }
}

/// The manifest with one update applied.
pub open spec fn edited(doc: Tree, dep: Dep, preserve: bool) -> Tree {
    match edit_of(doc, dep, preserve) {
        Some((path, version)) => put(doc, path, version),
        None => doc,
    }
}

/// The manifest with the updates applied, one after another.
pub open spec fn updated(doc: Tree, updates: Seq<Dep>, preserve: bool) -> Tree
    decreases updates.len(),
{
    if updates.len() == 0 {
        doc
    } else {
        edited(updated(doc, updates.drop_last(), preserve), updates.last(), preserve)
    }
}

/// A document with the updates applied, one after another.
pub open spec fn updated_document(
    document: toml_edit::DocumentMut,
    updates: Seq<Dep>,
    preserve: bool,
) -> toml_edit::DocumentMut
    decreases updates.len(),
{
    if updates.len() == 0 {
        document
    } else {
        let before = updated_document(document, updates.drop_last(), preserve);
        match edit_of(document_held(before), updates.last(), preserve) {
            Some((path, version)) => document_with(before, path, version),
            None => before,
        }
    }
}

/// All that is written for the updates can be printed.
pub open spec fn writes_printable(doc: Tree, updates: Seq<Dep>, preserve: bool) -> bool
    decreases updates.len(),
{
    if updates.len() == 0 {
        true
    } else {
        &&& writes_printable(doc, updates.drop_last(), preserve)
        &&& match edit_of(updated(doc, updates.drop_last(), preserve), updates.last(), preserve) {
            Some((_, version)) => short_quotes(version),
            None => true,
        }
    }
}

spec fn path_of(edit: Option<(Vec<Step>, String)>) -> Option<(Seq<Stride>, Seq<char>)> {
    match edit {
        Some((path, version)) => Some((strides(path@), version@)),
        None => None,
    }
}

fn place(section: &str, name: &str, versioned: bool) -> (r: Vec<Step>)
    ensures
        strides(r@) == (if versioned {
            seq![Stride::Key(section@), Stride::Key(name@), Stride::Key("version"@)]
        } else {
            seq![Stride::Key(section@), Stride::Key(name@)]
        }),
{
    let mut path: Vec<Step> = Vec::new();
    path.push(Step::Key(section.to_owned()));
    path.push(Step::Key(name.to_owned()));
    if versioned {
        path.push(Step::Key("version".to_owned()));
        assert(strides(path@) =~= seq![
            Stride::Key(section@),
            Stride::Key(name@),
            Stride::Key("version"@),
        ]);
    } else {
        assert(strides(path@) =~= seq![Stride::Key(section@), Stride::Key(name@)]);
    }
    path
}

fn plan_edit(doc: &Node, dep: &Dependency, preserve: bool) -> (r: Option<(Vec<Step>, String)>)
    ensures
        path_of(r) == edit_of(doc@, dep@, preserve),
{
    let section: &str = section_of(dep.dep_type);
    let ghost base = seq![Stride::Key(section@), Stride::Key(dep.name@)];
    assert(base.push(Stride::Key("version"@)) =~= seq![
        Stride::Key(section@),
        Stride::Key(dep.name@),
        Stride::Key("version"@),
    ]);
    let latest: &str = match &dep.latest_version {
        Some(latest) => latest.as_str(),
        None => {
            return None;
        },
    };
    let table: &Node = match doc.get(section) {
        Some(table) => table,
        None => {
            return None;
        },
    };
    let entry: &Node = match table.get(dep.name.as_str()) {
        Some(entry) => entry,
        None => {
            return None;
        },
    };
    match entry {
        Node::Text(old) => Some(
            (place(section, dep.name.as_str(), false), next_version(old.as_str(), latest, preserve)),
        ),
        Node::Inline(_) => match entry.get("version") {
            Some(node) => {
                let old: &str = match node.as_text() {
                    Some(old) => old,
                    None => "",
                };
                proof {
                    reveal_strlit("");
                    assert(old@ =~= text_or_empty(Some(node@)));
                }
                Some(
                    (
                        place(section, dep.name.as_str(), true),
                        next_version(old, latest, preserve),
                    ),
                )
            },
            None => None,
        },
        Node::Table(_) => {
            let old: &str = match entry.get("version") {
                Some(node) => match node.as_text() {
                    Some(old) => old,
                    None => "",
                },
                None => "",
            };
            proof {
                reveal_strlit("");
                assert(old@ =~= text_or_empty(child(entry@, "version"@)));
            }
            Some((place(section, dep.name.as_str(), true), next_version(old, latest, preserve)))
        },
        _ => None,
    }
}

/// An edit can be made: its path leads to a value, or to a table that has no
/// `version` yet.
proof fn lemma_edit_reachable(doc: Tree, dep: Dep, preserve: bool)
    requires
        edit_of(doc, dep, preserve) is Some,
    ensures
        reachable(doc, (edit_of(doc, dep, preserve)->0).0),
        (edit_of(doc, dep, preserve)->0).0.len() > 0,
{
    reveal_with_fuel(reachable, 4);
    let path = (edit_of(doc, dep, preserve)->0).0;
    let section = child(doc, section_name(dep.dep_type))->0;
    let entry = child(section, dep.name)->0;
    assert(path[0] == Stride::Key(section_name(dep.dep_type)));
    assert(path.skip(1)[0] == Stride::Key(dep.name));
    assert(step_to(doc, path[0]) == Some(section));
    assert(step_to(section, path.skip(1)[0]) == Some(entry));
    if path.len() == 3 {
        assert(path.skip(1).skip(1)[0] == Stride::Key("version"@));
        assert(path.skip(1).skip(1).skip(1).len() == 0);
    } else {
        assert(path.skip(1).skip(1).len() == 0);
    }
}

/// A text can be read, and leads from every path to the text that `t` has there.
pub open spec fn says(s: Seq<char>, t: Tree) -> bool {
    &&& toml_finds(s, t)
    &&& document_tree(s) is Some
    &&& forall|path: Seq<Stride>| #[trigger]
        text_at(document_tree(s)->0, path) == text_at(t, path)
}

/// What is written for all updates can be printed only if it can for the first ones.
proof fn lemma_writes_printable(doc: Tree, updates: Seq<Dep>, preserve: bool, n: int)
    requires
        0 <= n <= updates.len(),
        writes_printable(doc, updates, preserve),
    ensures
        writes_printable(doc, updates.take(n), preserve),
    decreases updates.len(),
{
    if n < updates.len() {
        let init = updates.drop_last();
        lemma_writes_printable(doc, init, preserve, n);
        assert(init.take(n) =~= updates.take(n));
    } else {
        assert(updates.take(n) =~= updates);
    }
}

/// The text of a manifest with the updates applied; an error where it is no
/// TOML, or where what is to be written holds too many quotes in a row.
pub fn update_manifest(content: &str, updates: &Vec<Dependency>, preserve: bool) -> (r: Result<
    String,
    String,
>)
    ensures
        match document_of(content@) {
            Some(document) => {
                let all = deps(updates@);
                let new = updated_document(document, all, preserve);
                &&& r is Ok <==> writes_printable(document_held(document), all, preserve)
                &&& r is Ok ==> r->Ok_0@ == document_text(new)
                &&& r is Ok ==> document_held(new) == updated(
                    document_held(document),
                    all,
                    preserve,
                )
                &&& r is Ok ==> says(r->Ok_0@, document_held(new))
            },
            None => r is Err,
        },
{
    let mut document: toml_edit::DocumentMut = match parse_document(content) {
        Ok(document) => document,
        Err(e) => {
            return Err(e);
        },
    };
    let ghost first = document;
    let ghost doc = document_held(document);
    let ghost all = deps(updates@);
    for i in 0..updates.len()
        invariant
            all == deps(updates@),
            document_of(content@) == Some(first),
            doc == document_held(first),
            document == updated_document(first, all.take(i as int), preserve),
            document_held(document) == updated(doc, all.take(i as int), preserve),
            writes_printable(doc, all.take(i as int), preserve),
            documents::document_faithful(document),
    {
        proof {
            assert(all.take(i + 1).drop_last() =~= all.take(i as int));
            assert(all.take(i + 1).last() == updates@[i as int]@);
        }
        let node: Node = document_node(&document);
        if let Some((path, version)) = plan_edit(&node, &updates[i], preserve) {
            proof {
                lemma_edit_reachable(node@, updates@[i as int]@, preserve);
            }
            if !has_short_quotes(version.as_str()) {
                proof {
                    if writes_printable(doc, all, preserve) {
                        lemma_writes_printable(doc, all, preserve, i + 1);
                    }
                }
                return Err("too many quotes in a row".to_owned());
            }
            document_set(&mut document, &path, version.as_str());
        }
    }
    assert(all.take(all.len() as int) =~= all);
    Ok(document_print(&document))
}

/// Two updates write to the entry of the same dependency.
pub open spec fn same_entry(a: Dep, b: Dep) -> bool {
    section_name(a.dep_type) == section_name(b.dep_type) && a.name == b.name
}

/// The path leads to another section than the update's, or there to another entry.
pub open spec fn is_elsewhere(q: Seq<Stride>, dep: Dep) -> bool {
    &&& q.len() >= 1
    &&& q[0] is Key
    &&& q[0] == Stride::Key(section_name(dep.dep_type)) ==> q.len() >= 2 && q[1] is Key && q[1]
        != Stride::Key(dep.name)
}

proof fn lemma_entries_diverge(doc: Tree, dep: Dep, preserve: bool, q: Seq<Stride>)
    requires
        edit_of(doc, dep, preserve) is Some,
        is_elsewhere(q, dep),
    ensures
        diverge((edit_of(doc, dep, preserve)->0).0, q),
{
    reveal_with_fuel(diverge, 3);
    let path = (edit_of(doc, dep, preserve)->0).0;
    assert(path[0] == Stride::Key(section_name(dep.dep_type)));
    assert(path.skip(1)[0] == Stride::Key(dep.name));
    if q.len() >= 2 {
        assert(q.skip(1)[0] == q[1]);
    }
}

/// An update changes nothing but the entry of its dependency: whatever value stands
/// under another key of a section, or outside it, stays.
pub proof fn law_other_entries_stay(
    doc: Tree,
    updates: Seq<Dep>,
    preserve: bool,
    q: Seq<Stride>,
)
    requires
        forall|j: int| 0 <= j < updates.len() ==> is_elsewhere(q, #[trigger] updates[j]),
    ensures
        at(updated(doc, updates, preserve), q) == at(doc, q),
    decreases updates.len(),
{
    if updates.len() > 0 {
        let init = updates.drop_last();
        let before = updated(doc, init, preserve);
        let dep = updates.last();
        assert forall|j: int| 0 <= j < init.len() implies is_elsewhere(q, #[trigger] init[j]) by {
            assert(init[j] == updates[j]);
        }
        assert(is_elsewhere(q, updates[updates.len() - 1]));
        law_other_entries_stay(doc, init, preserve, q);
        if let Some((path, version)) = edit_of(before, dep, preserve) {
            lemma_edit_reachable(before, dep, preserve);
            lemma_entries_diverge(before, dep, preserve, q);
            law_put(before, path, version);
            assert(at(put(before, path, version), q) == at(before, q));
        }
    }
}

/// Once all updates are applied, each that was written reads back as written,
/// unless a later one is of the same dependency.
pub proof fn law_updates_read_back(doc: Tree, updates: Seq<Dep>, preserve: bool, i: int)
    requires
        0 <= i < updates.len(),
        edit_of(updated(doc, updates.take(i), preserve), updates[i], preserve) is Some,
        forall|j: int| i < j < updates.len() ==> !same_entry(updates[i], #[trigger] updates[j]),
    ensures
        ({
            let edit = edit_of(updated(doc, updates.take(i), preserve), updates[i], preserve)->0;
            text_at(updated(doc, updates, preserve), edit.0) == Some(edit.1)
        }),
    decreases updates.len(),
{
    let first = updated(doc, updates.take(i), preserve);
    let (path, version) = edit_of(first, updates[i], preserve)->0;
    let init = updates.drop_last();
    if i == updates.len() - 1 {
        assert(updates.take(i) =~= init);
        lemma_edit_reachable(first, updates[i], preserve);
        law_put(first, path, version);
    } else {
        assert(init.take(i) =~= updates.take(i));
        assert(init[i] == updates[i]);
        assert forall|j: int| i < j < init.len() implies !same_entry(
            init[i],
            #[trigger] init[j],
        ) by {
            assert(init[j] == updates[j]);
        }
        law_updates_read_back(doc, init, preserve, i);
        let before = updated(doc, init, preserve);
        let dep = updates.last();
        assert(!same_entry(updates[i], dep));
        if let Some((later, text)) = edit_of(before, dep, preserve) {
            lemma_edit_reachable(before, dep, preserve);
            assert(path[0] == Stride::Key(section_name(updates[i].dep_type)));
            assert(path[1] == Stride::Key(updates[i].name));
            lemma_entries_diverge(before, dep, preserve, path);
            law_put(before, later, text);
            assert(at(put(before, later, text), path) == at(before, path));
        }
    }
}

} // verus!
