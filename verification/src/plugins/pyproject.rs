//! Python packages in `pyproject.toml`.
use vstd::prelude::*;
use vstd::string::*;
use crate::chars;
use crate::documents;
use crate::documents::{
    document_held, document_node, document_of, document_print, document_set, document_text,
    document_with, has_short_quotes, parse_document, read_toml, short_quotes, toml_tree,
};
use crate::plugin::{Dep, DepType, Dependency, Dir, Directory, Plugin, deps, title, titled};
use crate::plugins::cargo::says;
use crate::plugins::requirements::{
    find_update, is_operator, is_version, is_version_char, new_version, not_operator,
    operator_index, prefix_of, range_prefix, target_of, update_for, version_of,
};
use crate::text;
use crate::tree::{
    Node, Step, Stride, Tree, apart, at, child, descend, diverge, entries_of, entry_trees, found,
    law_put, lemma_at_push, put, reachable, step_to, strides, text_at, trees,
};

verus! {

/// The package and the version specifier of a PEP 508 dependency such as
/// `requests>=2.28.0`, without extras and environment markers.
pub open spec fn pep508(spec: Seq<char>) -> Option<(Seq<char>, Seq<char>)> {
    let r = chars::trim(chars::before(spec, ';'));
    let name = chars::trim(chars::before(target_of(r), '['));
    if name.len() == 0 && chars::leading(r, not_operator()) == r.len() {
        None
    } else {
        Some((name, version_of(r)))
    }
}

/// Parse a PEP 508 dependency string like "requests>=2.28.0" into (name, version_spec).
pub fn parse_pep508(spec: &str) -> (r: Option<(String, String)>)
    ensures
        match r {
            Some(p) => pep508(spec@) == Some(chars::pair(p)),
            None => pep508(spec@) is None,
        },
{
    let r: &str = text::trim(text::before(spec, ';'));
    let n: usize = operator_index(r);
    if n < r.unicode_len() {
        let name: &str = text::trim(text::before(text::trim(text::take(r, n)), '['));
        Some((name.to_owned(), text::trim(text::skip(r, n)).to_owned()))
    } else {
        let name: &str = text::trim(text::before(r, '['));
        if name.is_empty() {
            None
        } else {
            Some((name.to_owned(), "*".to_owned()))
        }
    }
}

/// The packages that the items of a list declare: those that are texts.
pub open spec fn list_deps(items: Seq<Tree>, dep_type: DepType) -> Seq<Dep>
    decreases items.len(),
{
    if items.len() == 0 {
        seq![]
    } else {
        let before = list_deps(items.drop_last(), dep_type);
        match items.last() {
            Tree::Text(spec) => match pep508(spec) {
                Some((name, version)) => before.push(Dep::fresh(name, version, dep_type)),
                None => before,
            },
            _ => before,
        }
    }
}

/// The packages of a list.
pub fn extract_deps_from_array(items: &Vec<Node>, dep_type: DepType) -> (r: Vec<Dependency>)
    ensures
        deps(r@) == list_deps(trees(items@), dep_type),
{
    let ghost all = trees(items@);
    let mut out: Vec<Dependency> = Vec::new();
    assert(deps(out@) =~= seq![]);
    for i in 0..items.len()
        invariant
            all == trees(items@),
            deps(out@) == list_deps(all.take(i as int), dep_type),
    {
        assert(all.take(i + 1).drop_last() =~= all.take(i as int));
        assert(all.take(i + 1).last() == items@[i as int]@);
        if let Some(spec) = items[i].as_text() {
            if let Some((name, version)) = parse_pep508(spec) {
                let ghost sofar = out@;
                let dep: Dependency = Dependency::new(name, version, dep_type);
                out.push(dep);
                assert(deps(out@) =~= deps(sofar).push(dep@));
            }
        }
    }
    assert(all.take(all.len() as int) =~= all);
    out
}

/// The packages of a value that is a list; a value of another form has none.
pub open spec fn value_deps(t: Option<Tree>, dep_type: DepType) -> Seq<Dep> {
    match t {
        Some(Tree::List(items)) => list_deps(items, dep_type),
        _ => seq![],
    }
}

fn extract_value(node: Option<&Node>, dep_type: DepType) -> (r: Vec<Dependency>)
    ensures
        deps(r@) == value_deps(found(node), dep_type),
{
    if let Some(node) = node {
        if let Some(items) = node.as_list() {
            return extract_deps_from_array(items, dep_type);
        }
    }
    let r: Vec<Dependency> = Vec::new();
    assert(deps(r@) =~= seq![]);
    r
}

/// The group that a table of lists puts the packages of a list in: with names,
/// `dev` is for development.
pub open spec fn list_type(key: Seq<char>, named: bool) -> DepType {
    if named && key == "dev"@ {
        DepType::Dev
    } else {
        DepType::Optional
    }
}

/// The packages of the lists that the entries of a table are.
pub open spec fn table_deps(entries: Seq<(Seq<char>, Tree)>, named: bool) -> Seq<Dep>
    decreases entries.len(),
{
    if entries.len() == 0 {
        seq![]
    } else {
        table_deps(entries.drop_last(), named) + value_deps(
            Some(entries.last().1),
            list_type(entries.last().0, named),
        )
    }
}

fn extract_table(node: Option<&Node>, named: bool) -> (r: Vec<Dependency>)
    ensures
        deps(r@) == match found(node) {
            Some(t) => table_deps(entries_of(t), named),
            None => seq![],
        },
{
    let mut out: Vec<Dependency> = Vec::new();
    assert(deps(out@) =~= seq![]);
    if let Some(node) = node {
        if let Some(entries) = node.as_entries() {
            let ghost all = entry_trees(entries@);
            for i in 0..entries.len()
                invariant
                    all == entry_trees(entries@),
                    deps(out@) == table_deps(all.take(i as int), named),
            {
                assert(all.take(i + 1).drop_last() =~= all.take(i as int));
                assert(all.take(i + 1).last() == (entries@[i as int].0@, entries@[i as int].1@));
                let dep_type: DepType = if named && text::eq(entries[i].0.as_str(), "dev") {
                    DepType::Dev
                } else {
                    DepType::Optional
                };
                let mut new: Vec<Dependency> = extract_value(Some(&entries[i].1), dep_type);
                let ghost (a, b) = (out@, new@);
                out.append(&mut new);
                assert(deps(out@) =~= deps(a) + deps(b));
            }
            assert(all.take(all.len() as int) =~= all);
        }
    }
    out
}

/// The packages of a table of lists.
pub open spec fn lists_deps(t: Option<Tree>, named: bool) -> Seq<Dep> {
    match t {
        Some(t) => table_deps(entries_of(t), named),
        None => seq![],
    }
}

/// The packages that a project declares: its dependencies, its optional ones,
/// those for development with uv, and those of dependency groups.
pub open spec fn listed(doc: Tree) -> Seq<Dep> {
    value_deps(descend(doc, seq!["project"@, "dependencies"@]), DepType::Normal) + lists_deps(
        descend(doc, seq!["project"@, "optional-dependencies"@]),
        false,
    ) + value_deps(
        descend(doc, seq!["tool"@, "uv"@, "dev-dependencies"@]),
        DepType::Dev,
    ) + lists_deps(child(doc, "dependency-groups"@), true)
}

/// The packages of a project that was read.
pub fn project_dependencies(doc: &Node) -> (r: Vec<Dependency>)
    ensures
        deps(r@) == listed(doc@),
{
    let mut out: Vec<Dependency> = extract_value(
        doc.get2("project", "dependencies"),
        DepType::Normal,
    );
    let mut optional: Vec<Dependency> = extract_table(
        doc.get2("project", "optional-dependencies"),
        false,
    );
    let mut dev: Vec<Dependency> = extract_value(
        doc.get3("tool", "uv", "dev-dependencies"),
        DepType::Dev,
    );
    let mut groups: Vec<Dependency> = extract_table(doc.get("dependency-groups"), true);
    let ghost (a, b, c, d) = (out@, optional@, dev@, groups@);
    out.append(&mut optional);
    out.append(&mut dev);
    out.append(&mut groups);
    assert(deps(out@) =~= deps(a) + deps(b) + deps(c) + deps(d));
    out
}

/// The packages that the text of a project file declares; an error where it is no
/// TOML.
pub fn list_dependencies(content: &str) -> (r: Result<Vec<Dependency>, String>)
    ensures
        match toml_tree(content@) {
            Some(doc) => r matches Ok(items) && deps(items@) == listed(doc),
            None => r is Err,
        },
{
    match read_toml(content) {
        Ok(doc) => Ok(project_dependencies(&doc)),
        Err(e) => Err(e),
    }
}

/// The project declares Python packages.
pub open spec fn declares(doc: Tree) -> bool {
    ||| descend(doc, seq!["project"@, "dependencies"@]) is Some
    ||| descend(doc, seq!["project"@, "optional-dependencies"@]) is Some
    ||| descend(doc, seq!["tool"@, "uv"@, "dev-dependencies"@]) is Some
    ||| child(doc, "dependency-groups"@) is Some
}

/// The project that was read declares Python packages.
pub fn declares_dependencies(doc: &Node) -> (r: bool)
    ensures
        r == declares(doc@),
{
    doc.get2("project", "dependencies").is_some() || doc.get2(
        "project",
        "optional-dependencies",
    ).is_some() || doc.get3("tool", "uv", "dev-dependencies").is_some() || doc.get(
        "dependency-groups",
    ).is_some()
}

/// Looks after `pyproject.toml`.
#[derive(Debug, Clone, Copy)]
pub struct PyprojectPlugin;

impl PyprojectPlugin {
    pub fn new() -> (r: Self)
        ensures
            r == PyprojectPlugin,
    {
        PyprojectPlugin
    }
}

impl Plugin for PyprojectPlugin {
    open spec fn name_text(&self) -> Seq<char> {
        "pyproject"@
    }

    open spec fn file_text(&self) -> Seq<char> {
        "pyproject.toml"@
    }

    open spec fn detected(&self, dir: Dir) -> bool {
        dir.files.contains("pyproject.toml"@) && match dir.pyproject {
            Some(content) => match toml_tree(content) {
                Some(doc) => declares(doc),
                None => false,
            },
            None => false,
        }
    }

    open spec fn display_text(&self, dir: Dir) -> Seq<char> {
        titled("pyproject"@, "pyproject.toml"@)
    }

    fn name(&self) -> (r: &'static str) {
        "pyproject"
    }

    fn file_name(&self) -> (r: &'static str) {
        "pyproject.toml"
    }

    fn detect(&self, dir: &Directory) -> (r: bool) {
        if !dir.has_file("pyproject.toml") {
            return false;
        }
        match &dir.pyproject {
            Some(content) => match read_toml(content.as_str()) {
                Ok(doc) => declares_dependencies(&doc),
                Err(_) => false,
            },
            None => false,
        }
    }

    fn display_name(&self, dir: &Directory) -> (r: String) {
        title("pyproject", "pyproject.toml")
    }
}

/// What stands before the version specifier of a dependency: its name and its
/// extras.
pub open spec fn stem(spec: Seq<char>) -> Seq<char> {
    chars::take_while(chars::before(spec, ';'), not_operator())
}

/// The operator of a dependency: what stands before the first digit of its version
/// specifier. A dependency on any version has none.
pub open spec fn operator(spec: Seq<char>) -> Seq<char> {
    let content = chars::before(spec, ';');
    if stem(spec).len() < content.len() {
        range_prefix(version_of(chars::trim(content)))
    } else {
        seq![]
    }
}

/// The dependency to write: with its name, extras and operator where ranges are
/// preserved, else the package pinned.
pub open spec fn new_spec(
    old: Seq<char>,
    name: Seq<char>,
    latest: Seq<char>,
    preserve: bool,
) -> Seq<char> {
    if preserve {
        stem(old) + operator(old) + latest
    } else {
        name + "=="@ + latest
    }
}

/// What to write in place of an item of a list.
pub open spec fn item_edit(item: Tree, updates: Seq<Dep>, preserve: bool) -> Option<Seq<char>> {
    match item {
        Tree::Text(old) => match pep508(old) {
            Some((name, _)) => match update_for(updates, name) {
                Some(dep) => match dep.latest {
                    Some(latest) => Some(new_spec(old, name, latest, preserve)),
                    None => None,
                },
                None => None,
            },
            None => None,
        },
        _ => None,
    }
}

/// Rewrites one item of a list.
pub fn update_item(item: &Node, updates: &Vec<Dependency>, preserve: bool) -> (r: Option<String>)
    ensures
        chars::opt(r) == item_edit(item@, deps(updates@), preserve),
{
    let old: &str = match item.as_text() {
        Some(old) => old,
        None => {
            return None;
        },
    };
    let (name, version): (String, String) = match parse_pep508(old) {
        Some(parsed) => parsed,
        None => {
            return None;
        },
    };
    match find_update(updates, name.as_str()) {
        Some(k) => match &updates[k].latest_version {
            Some(latest) => {
                if preserve {
                    let content: &str = text::before(old, ';');
                    let n: usize = operator_index(content);
                    let mut out: String = text::take(content, n).to_owned();
                    let ghost front = out@;
                    proof {
                        lemma_operator(old@);
                    }
                    if n < content.unicode_len() {
                        out.append(prefix_of(version.as_str()));
                    }
                    assert(out@ =~= front + operator(old@));
                    out.append(latest.as_str());
                    Some(out)
                } else {
                    let mut out: String = name;
                    out.append("==");
                    out.append(latest.as_str());
                    Some(out)
                }
            },
            None => None,
        },
        None => None,
    }
}

/// What to write, and where.
pub type Edit = (Seq<Stride>, Seq<char>);

/// What to write in a list that the path leads to.
pub open spec fn list_edits(
    path: Seq<Stride>,
    items: Seq<Tree>,
    updates: Seq<Dep>,
    preserve: bool,
) -> Seq<Edit>
    decreases items.len(),
{
    if items.len() == 0 {
        seq![]
    } else {
        let before = list_edits(path, items.drop_last(), updates, preserve);
        match item_edit(items.last(), updates, preserve) {
            Some(spec) => before.push((path.push(Stride::At(items.len() - 1)), spec)),
            None => before,
        }
    }
}

/// What to write in a value that the path leads to, where it is a list.
pub open spec fn value_edits(
    path: Seq<Stride>,
    t: Option<Tree>,
    updates: Seq<Dep>,
    preserve: bool,
) -> Seq<Edit> {
    match t {
        Some(Tree::List(items)) => list_edits(path, items, updates, preserve),
        _ => seq![],
    }
}

/// What to write in the lists that the first `n` entries of a table are.
pub open spec fn entry_edits(
    path: Seq<Stride>,
    table: Tree,
    n: int,
    updates: Seq<Dep>,
    preserve: bool,
) -> Seq<Edit>
    decreases n,
{
    if n <= 0 {
        seq![]
    } else {
        let key = entries_of(table)[n - 1].0;
        entry_edits(path, table, n - 1, updates, preserve) + value_edits(
            path.push(Stride::Key(key)),
            child(table, key),
            updates,
            preserve,
        )
    }
}

/// What to write in a table of lists.
pub open spec fn table_edits(
    path: Seq<Stride>,
    t: Option<Tree>,
    updates: Seq<Dep>,
    preserve: bool,
) -> Seq<Edit> {
    match t {
        Some(table) => entry_edits(
            path,
            table,
            entries_of(table).len() as int,
            updates,
            preserve,
        ),
        None => seq![],
    }
}

pub open spec fn keys(path: Seq<Seq<char>>) -> Seq<Stride> {
    path.map_values(|key: Seq<char>| Stride::Key(key))
}

/// What to write in a project file.
pub open spec fn edits(doc: Tree, updates: Seq<Dep>, preserve: bool) -> Seq<Edit> {
    let normal = seq!["project"@, "dependencies"@];
    let optional = seq!["project"@, "optional-dependencies"@];
    let dev = seq!["tool"@, "uv"@, "dev-dependencies"@];
    let groups = seq!["dependency-groups"@];
    value_edits(keys(normal), descend(doc, normal), updates, preserve) + table_edits(
        keys(optional),
        descend(doc, optional),
        updates,
        preserve,
    ) + value_edits(keys(dev), descend(doc, dev), updates, preserve) + table_edits(
        keys(groups),
        descend(doc, groups),
        updates,
        preserve,
    )
}

/// A document with the edits made, one after another.
pub open spec fn applied(doc: Tree, edits: Seq<Edit>) -> Tree
    decreases edits.len(),
{
    if edits.len() == 0 {
        doc
    } else {
        put(applied(doc, edits.drop_last()), edits.last().0, edits.last().1)
    }
}

/// A document with the edits made, one after another.
pub open spec fn edited_document(
    document: toml_edit::DocumentMut,
    edits: Seq<Edit>,
) -> toml_edit::DocumentMut
    decreases edits.len(),
{
    if edits.len() == 0 {
        document
    } else {
        document_with(
            edited_document(document, edits.drop_last()),
            edits.last().0,
            edits.last().1,
        )
    }
}

/// All that the edits write can be printed.
pub open spec fn writes_printable(edits: Seq<Edit>) -> bool {
    forall|i: int| 0 <= i < edits.len() ==> short_quotes((#[trigger] edits[i]).1)
}

/// The edits of executable code.
spec fn edits_of(items: Seq<(Vec<Step>, String)>) -> Seq<Edit> {
    items.map_values(|e: (Vec<Step>, String)| (strides(e.0@), e.1@))
}

fn copy_path(path: &Vec<Step>) -> (r: Vec<Step>)
    ensures
        strides(r@) == strides(path@),
{
    let mut out: Vec<Step> = Vec::new();
    let ghost all = strides(path@);
    for i in 0..path.len()
        invariant
            all == strides(path@),
            strides(out@) == all.take(i as int),
    {
        let ghost sofar = out@;
        let step: Step = match &path[i] {
            Step::Key(key) => Step::Key(key.clone()),
            Step::At(n) => Step::At(*n),
        };
        assert(step@ == all[i as int]);
        out.push(step);
        assert(strides(out@) =~= strides(sofar).push(step@));
        assert(all.take(i + 1) =~= all.take(i as int).push(all[i as int]));
    }
    assert(all.take(all.len() as int) =~= all);
    out
}

fn plan_value(
    path: &Vec<Step>,
    node: Option<&Node>,
    updates: &Vec<Dependency>,
    preserve: bool,
) -> (r: Vec<(Vec<Step>, String)>)
    ensures
        edits_of(r@) == value_edits(strides(path@), found(node), deps(updates@), preserve),
{
    let mut out: Vec<(Vec<Step>, String)> = Vec::new();
    assert(edits_of(out@) =~= seq![]);
    if let Some(node) = node {
        if let Some(items) = node.as_list() {
            let ghost all = trees(items@);
            let ghost base = strides(path@);
            for i in 0..items.len()
                invariant
                    all == trees(items@),
                    base == strides(path@),
                    edits_of(out@) == list_edits(
                        base,
                        all.take(i as int),
                        deps(updates@),
                        preserve,
                    ),
            {
                assert(all.take(i + 1).drop_last() =~= all.take(i as int));
                assert(all.take(i + 1).last() == items@[i as int]@);
                if let Some(spec) = update_item(&items[i], updates, preserve) {
                    let ghost sofar = out@;
                    let mut place: Vec<Step> = copy_path(path);
                    let ghost start = place@;
                    place.push(Step::At(i));
                    assert(strides(place@) =~= strides(start).push(Stride::At(i as int)));
                    out.push((place, spec));
                    assert(edits_of(out@) =~= edits_of(sofar).push((strides(place@), spec@)));
                }
            }
            assert(all.take(all.len() as int) =~= all);
        }
    }
    out
}

fn plan_table(
    path: &Vec<Step>,
    node: Option<&Node>,
    updates: &Vec<Dependency>,
    preserve: bool,
) -> (r: Vec<(Vec<Step>, String)>)
    ensures
        edits_of(r@) == table_edits(strides(path@), found(node), deps(updates@), preserve),
{
    let mut out: Vec<(Vec<Step>, String)> = Vec::new();
    assert(edits_of(out@) =~= seq![]);
    if let Some(node) = node {
        if let Some(entries) = node.as_entries() {
            let ghost all = entry_trees(entries@);
            let ghost base = strides(path@);
            for i in 0..entries.len()
                invariant
                    all == entry_trees(entries@),
                    base == strides(path@),
                    entries_of(node@) == all,
                    edits_of(out@) == entry_edits(
                        base,
                        node@,
                        i as int,
                        deps(updates@),
                        preserve,
                    ),
            {
                let mut place: Vec<Step> = copy_path(path);
                let ghost start = place@;
                place.push(Step::Key(entries[i].0.clone()));
                assert(strides(place@) =~= strides(start).push(Stride::Key(all[i as int].0)));
                let mut new: Vec<(Vec<Step>, String)> = plan_value(
                    &place,
                    node.get(entries[i].0.as_str()),
                    updates,
                    preserve,
                );
                let ghost (a, b) = (out@, new@);
                out.append(&mut new);
                assert(edits_of(out@) =~= edits_of(a) + edits_of(b));
            }
        }
    }
    out
}

fn path2(first: &str, second: &str) -> (r: Vec<Step>)
    ensures
        strides(r@) == keys(seq![first@, second@]),
{
    let mut path: Vec<Step> = Vec::new();
    path.push(Step::Key(first.to_owned()));
    path.push(Step::Key(second.to_owned()));
    assert(strides(path@) =~= keys(seq![first@, second@]));
    path
}

fn plan(doc: &Node, updates: &Vec<Dependency>, preserve: bool) -> (r: Vec<(Vec<Step>, String)>)
    ensures
        edits_of(r@) == edits(doc@, deps(updates@), preserve),
{
    let mut out: Vec<(Vec<Step>, String)> = plan_value(
        &path2("project", "dependencies"),
        doc.get2("project", "dependencies"),
        updates,
        preserve,
    );
    let mut optional: Vec<(Vec<Step>, String)> = plan_table(
        &path2("project", "optional-dependencies"),
        doc.get2("project", "optional-dependencies"),
        updates,
        preserve,
    );
    let mut path: Vec<Step> = Vec::new();
    path.push(Step::Key("tool".to_owned()));
    path.push(Step::Key("uv".to_owned()));
    path.push(Step::Key("dev-dependencies".to_owned()));
    assert(strides(path@) =~= keys(seq!["tool"@, "uv"@, "dev-dependencies"@]));
    let mut dev: Vec<(Vec<Step>, String)> = plan_value(
        &path,
        doc.get3("tool", "uv", "dev-dependencies"),
        updates,
        preserve,
    );
    let mut path: Vec<Step> = Vec::new();
    path.push(Step::Key("dependency-groups".to_owned()));
    proof {
        assert(strides(path@) =~= keys(seq!["dependency-groups"@]));
        reveal_with_fuel(descend, 2);
        assert(seq!["dependency-groups"@].skip(1) =~= seq![]);
    }
    let mut groups: Vec<(Vec<Step>, String)> = plan_table(
        &path,
        doc.get("dependency-groups"),
        updates,
        preserve,
    );
    let ghost (a, b, c, d) = (out@, optional@, dev@, groups@);
    out.append(&mut optional);
    out.append(&mut dev);
    out.append(&mut groups);
    assert(edits_of(out@) =~= edits_of(a) + edits_of(b) + edits_of(c) + edits_of(d));
    out
}

/// All edits write in the place of texts below the root.
pub open spec fn on_texts(doc: Tree, edits: Seq<Edit>) -> bool {
    forall|i: int|
        0 <= i < edits.len() ==> (#[trigger] edits[i]).0.len() > 0 && text_at(
            doc,
            edits[i].0,
        ) is Some
}

proof fn lemma_list_edits(
    doc: Tree,
    path: Seq<Stride>,
    all: Seq<Tree>,
    n: int,
    updates: Seq<Dep>,
    preserve: bool,
)
    requires
        at(doc, path) == Some(Tree::List(all)),
        0 <= n <= all.len(),
    ensures
        on_texts(doc, list_edits(path, all.take(n), updates, preserve)),
    decreases n,
{
    if n > 0 {
        let items = all.take(n);
        lemma_list_edits(doc, path, all, n - 1, updates, preserve);
        assert(items.drop_last() =~= all.take(n - 1));
        lemma_at_push(doc, path, Stride::At(n - 1));
        assert(items.last() == all[n - 1]);
    }
}

proof fn lemma_value_edits(doc: Tree, path: Seq<Stride>, updates: Seq<Dep>, preserve: bool)
    ensures
        on_texts(doc, value_edits(path, at(doc, path), updates, preserve)),
{
    if let Some(Tree::List(items)) = at(doc, path) {
        lemma_list_edits(doc, path, items, items.len() as int, updates, preserve);
        assert(items.take(items.len() as int) =~= items);
    }
}

proof fn lemma_entry_edits(
    doc: Tree,
    path: Seq<Stride>,
    n: int,
    updates: Seq<Dep>,
    preserve: bool,
)
    requires
        at(doc, path) is Some,
        n <= entries_of(at(doc, path)->0).len(),
    ensures
        on_texts(doc, entry_edits(path, at(doc, path)->0, n, updates, preserve)),
    decreases n,
{
    if n > 0 {
        let table = at(doc, path)->0;
        let key = entries_of(table)[n - 1].0;
        lemma_entry_edits(doc, path, n - 1, updates, preserve);
        lemma_at_push(doc, path, Stride::Key(key));
        lemma_value_edits(doc, path.push(Stride::Key(key)), updates, preserve);
    }
}

proof fn lemma_table_edits(doc: Tree, path: Seq<Stride>, updates: Seq<Dep>, preserve: bool)
    ensures
        on_texts(doc, table_edits(path, at(doc, path), updates, preserve)),
{
    if let Some(table) = at(doc, path) {
        lemma_entry_edits(doc, path, entries_of(table).len() as int, updates, preserve);
    }
}

/// A chain of keys leads where the path of these keys leads.
pub proof fn lemma_descend(t: Tree, path: Seq<Seq<char>>)
    ensures
        at(t, keys(path)) == descend(t, path),
    decreases path.len(),
{
    if path.len() > 0 {
        assert(keys(path)[0] == Stride::Key(path[0]));
        assert(keys(path).skip(1) =~= keys(path.skip(1)));
        if let Some(c) = child(t, path[0]) {
            lemma_descend(c, path.skip(1));
        }
    }
}

/// Every edit of a project file writes in the place of a text.
pub proof fn lemma_edits(doc: Tree, updates: Seq<Dep>, preserve: bool)
    ensures
        on_texts(doc, edits(doc, updates, preserve)),
{
    let normal = seq!["project"@, "dependencies"@];
    let optional = seq!["project"@, "optional-dependencies"@];
    let dev = seq!["tool"@, "uv"@, "dev-dependencies"@];
    let groups = seq!["dependency-groups"@];
    lemma_descend(doc, normal);
    lemma_descend(doc, optional);
    lemma_descend(doc, dev);
    lemma_descend(doc, groups);
    lemma_value_edits(doc, keys(normal), updates, preserve);
    lemma_table_edits(doc, keys(optional), updates, preserve);
    lemma_value_edits(doc, keys(dev), updates, preserve);
    lemma_table_edits(doc, keys(groups), updates, preserve);
}

/// Two paths that lead to texts part somewhere, or are one.
pub proof fn lemma_texts_apart(t: Tree, p: Seq<Stride>, q: Seq<Stride>)
    requires
        text_at(t, p) is Some,
        text_at(t, q) is Some,
        p != q,
    ensures
        diverge(p, q),
    decreases p.len(),
{
    if p.len() == 0 {
        assert(q.len() > 0) by {
            if q.len() == 0 {
                assert(p =~= q);
            }
        }
        assert(step_to(t, q[0]) is None);
    } else if q.len() == 0 {
        assert(step_to(t, p[0]) is None);
    } else if p[0] == q[0] {
        assert(p.skip(1) != q.skip(1)) by {
            if p.skip(1) == q.skip(1) {
                assert(p =~= seq![p[0]] + p.skip(1));
                assert(q =~= seq![q[0]] + q.skip(1));
            }
        }
        lemma_texts_apart(step_to(t, p[0])->0, p.skip(1), q.skip(1));
    } else {
        assert(apart(p[0], q[0]));
    }
}

/// A path that leads to a text can be written to.
pub proof fn lemma_text_reachable(t: Tree, p: Seq<Stride>)
    requires
        at(t, p) is Some,
    ensures
        reachable(t, p),
    decreases p.len(),
{
    if p.len() > 0 {
        lemma_text_reachable(step_to(t, p[0])->0, p.skip(1));
    }
}

/// Making edits keeps texts where there were some: those that were written, and
/// all others as they were.
pub proof fn lemma_applied(doc: Tree, edits: Seq<Edit>, q: Seq<Stride>)
    requires
        on_texts(doc, edits),
        text_at(doc, q) is Some,
    ensures
        text_at(applied(doc, edits), q) is Some,
        (forall|i: int| 0 <= i < edits.len() ==> (#[trigger] edits[i]).0 != q) ==> text_at(
            applied(doc, edits),
            q,
        ) == text_at(doc, q),
    decreases edits.len(),
{
    if edits.len() > 0 {
        let init = edits.drop_last();
        let (path, s) = edits.last();
        let before = applied(doc, init);
        assert(on_texts(doc, init)) by {
            assert forall|i: int| 0 <= i < init.len() implies (#[trigger] init[i]).0.len() > 0
                && text_at(doc, init[i].0) is Some by {
                assert(init[i] == edits[i]);
            }
        }
        assert(text_at(doc, edits[edits.len() - 1].0) is Some);
        lemma_applied(doc, init, q);
        lemma_applied(doc, init, path);
        lemma_text_reachable(before, path);
        law_put(before, path, s);
        if path != q {
            lemma_texts_apart(before, path, q);
            assert(at(put(before, path, s), q) == at(before, q));
        }
        if forall|i: int| 0 <= i < edits.len() ==> (#[trigger] edits[i]).0 != q {
            assert(edits[edits.len() - 1].0 != q);
            assert forall|i: int| 0 <= i < init.len() implies (#[trigger] init[i]).0 != q by {
                assert(init[i] == edits[i]);
            }
        }
    }
}

/// Texts that no update concerns stay as they are.
pub proof fn law_other_texts_stay(
    doc: Tree,
    updates: Seq<Dep>,
    preserve: bool,
    q: Seq<Stride>,
)
    requires
        text_at(doc, q) is Some,
        forall|i: int|
            0 <= i < edits(doc, updates, preserve).len() ==> (#[trigger] edits(
                doc,
                updates,
                preserve,
            )[i]).0 != q,
    ensures
        text_at(applied(doc, edits(doc, updates, preserve)), q) == text_at(doc, q),
{
    lemma_edits(doc, updates, preserve);
    lemma_applied(doc, edits(doc, updates, preserve), q);
}

/// Whatever value stands where no update writes stays, be it a text or not.
pub proof fn law_other_values_stay(
    doc: Tree,
    updates: Seq<Dep>,
    preserve: bool,
    q: Seq<Stride>,
)
    requires
        forall|i: int|
            0 <= i < edits(doc, updates, preserve).len() ==> diverge(
                (#[trigger] edits(doc, updates, preserve)[i]).0,
                q,
            ),
    ensures
        at(applied(doc, edits(doc, updates, preserve)), q) == at(doc, q),
{
    lemma_edits(doc, updates, preserve);
    lemma_value_stays(doc, edits(doc, updates, preserve), q);
}

proof fn lemma_value_stays(doc: Tree, edits: Seq<Edit>, q: Seq<Stride>)
    requires
        on_texts(doc, edits),
        forall|i: int| 0 <= i < edits.len() ==> diverge((#[trigger] edits[i]).0, q),
    ensures
        at(applied(doc, edits), q) == at(doc, q),
    decreases edits.len(),
{
    if edits.len() > 0 {
        let init = edits.drop_last();
        let (path, s) = edits.last();
        let before = applied(doc, init);
        assert forall|k: int| 0 <= k < init.len() implies (#[trigger] init[k]).0.len() > 0
            && text_at(doc, init[k].0) is Some && diverge(init[k].0, q) by {
            assert(init[k] == edits[k]);
        }
        assert(edits[edits.len() - 1] == edits.last());
        lemma_value_stays(doc, init, q);
        lemma_applied(doc, init, path);
        lemma_text_reachable(before, path);
        law_put(before, path, s);
        assert(at(put(before, path, s), q) == at(before, q));
    }
}

/// Once all edits are made, each reads back as written, unless a later one is in
/// the same place.
pub proof fn law_edits_read_back(doc: Tree, updates: Seq<Dep>, preserve: bool, i: int)
    requires
        0 <= i < edits(doc, updates, preserve).len(),
        forall|j: int|
            i < j < edits(doc, updates, preserve).len() ==> (#[trigger] edits(
                doc,
                updates,
                preserve,
            )[j]).0 != edits(doc, updates, preserve)[i].0,
    ensures
        ({
            let all = edits(doc, updates, preserve);
            text_at(applied(doc, all), all[i].0) == Some(all[i].1)
        }),
{
    lemma_edits(doc, updates, preserve);
    lemma_written(doc, edits(doc, updates, preserve), i);
}

proof fn lemma_written(doc: Tree, edits: Seq<Edit>, i: int)
    requires
        on_texts(doc, edits),
        0 <= i < edits.len(),
        forall|j: int| i < j < edits.len() ==> (#[trigger] edits[j]).0 != edits[i].0,
    ensures
        text_at(applied(doc, edits), edits[i].0) == Some(edits[i].1),
    decreases edits.len(),
{
    let init = edits.drop_last();
    let (path, s) = edits.last();
    let before = applied(doc, init);
    assert(on_texts(doc, init)) by {
        assert forall|k: int| 0 <= k < init.len() implies (#[trigger] init[k]).0.len() > 0
            && text_at(doc, init[k].0) is Some by {
            assert(init[k] == edits[k]);
        }
    }
    assert(text_at(doc, edits[edits.len() - 1].0) is Some);
    assert(text_at(doc, edits[i].0) is Some);
    lemma_applied(doc, init, path);
    lemma_text_reachable(before, path);
    law_put(before, path, s);
    if i < edits.len() - 1 {
        assert(init[i] == edits[i]);
        assert forall|j: int| i < j < init.len() implies (#[trigger] init[j]).0 != init[i].0 by {
            assert(init[j] == edits[j]);
        }
        lemma_written(doc, init, i);
        assert(edits[edits.len() - 1].0 != edits[i].0);
        lemma_texts_apart(before, path, edits[i].0);
        assert(at(put(before, path, s), edits[i].0) == at(before, edits[i].0));
    }
}

/// The text of a project file with the updates applied; an error where it is no
/// TOML, or where what is to be written holds too many quotes in a row.
pub fn update_manifest(content: &str, updates: &Vec<Dependency>, preserve: bool) -> (r: Result<
    String,
    String,
>)
    ensures
        match document_of(content@) {
            Some(document) => {
                let all = edits(document_held(document), deps(updates@), preserve);
                let new = edited_document(document, all);
                &&& r is Ok <==> writes_printable(all)
                &&& r is Ok ==> r->Ok_0@ == document_text(new)
                &&& r is Ok ==> document_held(new) == applied(document_held(document), all)
                &&& r is Ok ==> says(r->Ok_0@, document_held(new))
            },
            None => r is Err,
        },
{
    let mut document: toml_edit::DocumentMut = match parse_document(content) {
        Ok(document) => document,
        Err(e) => {
            return Err(e);
        },
    };
    let ghost first = document;
    let ghost doc = document_held(document);
    let node: Node = document_node(&document);
    let items: Vec<(Vec<Step>, String)> = plan(&node, updates, preserve);
    let ghost all = edits(doc, deps(updates@), preserve);
    proof {
        lemma_edits(doc, deps(updates@), preserve);
    }
    for i in 0..items.len()
        invariant
            all == edits_of(items@),
            on_texts(doc, all),
            document_of(content@) == Some(first),
            doc == document_held(first),
            all == edits(doc, deps(updates@), preserve),
            document == edited_document(first, all.take(i as int)),
            document_held(document) == applied(doc, all.take(i as int)),
            forall|k: int| 0 <= k < i ==> short_quotes((#[trigger] all[k]).1),
            documents::document_faithful(document),
    {
        proof {
            assert(all.take(i + 1).drop_last() =~= all.take(i as int));
            assert(all.take(i + 1).last() == all[i as int]);
            assert(all[i as int] == (strides(items@[i as int].0@), items@[i as int].1@));
            assert(text_at(doc, all[i as int].0) is Some);
            assert(on_texts(doc, all.take(i as int))) by {
                assert forall|k: int| 0 <= k < i implies (#[trigger] all.take(
                    i as int,
                )[k]).0.len() > 0 && text_at(doc, all.take(i as int)[k].0) is Some by {
                    assert(all.take(i as int)[k] == all[k]);
                }
            }
            lemma_applied(doc, all.take(i as int), all[i as int].0);
            lemma_text_reachable(document_held(document), all[i as int].0);
        }
        if !has_short_quotes(items[i].1.as_str()) {
            assert(!short_quotes(all[i as int].1));
            return Err("too many quotes in a row".to_owned());
        }
        document_set(&mut document, &items[i].0, items[i].1.as_str());
    }
    assert(all.take(all.len() as int) =~= all);
    Ok(document_print(&document))
}

/// Reading a dependency that was written gives back the package, at the latest
/// version. A dependency on any version has no operator to preserve.
pub proof fn law_written_dependency_reads_back(
    old: Seq<char>,
    latest: Seq<char>,
    preserve: bool,
)
    requires
        pep508(old) is Some,
        (pep508(old)->0).0.len() > 0,
        is_version(latest),
        preserve ==> (pep508(old)->0).1 != "*"@,
    ensures
        ({
            let (name, version) = pep508(old)->0;
            pep508(new_spec(old, name, latest, preserve)) == Some(
                (name, new_version(version, latest, preserve)),
            )
        }),
{
    if preserve {
        lemma_preserved(old, latest);
    } else {
        lemma_pinned(old, latest);
    }
}

proof fn lemma_pinned(old: Seq<char>, latest: Seq<char>)
    requires
        pep508(old) is Some,
        (pep508(old)->0).0.len() > 0,
        is_version(latest),
    ensures
        pep508((pep508(old)->0).0 + "=="@ + latest) == Some(
            ((pep508(old)->0).0, "=="@ + latest),
        ),
{
    let name = (pep508(old)->0).0;
    lemma_name_chars(old);
    chars::lemma_trim(chars::before(target_of(chars::trim(chars::before(old, ';'))), '['));
    lemma_pinned_name(name, latest);
}

/// A character that a package's name can hold.
spec fn name_char() -> spec_fn(char) -> bool {
    |c: char| c != ';' && c != '[' && !is_operator(c)
}

/// Trimming brings no new characters.
proof fn lemma_trim_all(s: Seq<char>, p: spec_fn(char) -> bool)
    requires
        forall|i: int| 0 <= i < s.len() ==> p(#[trigger] s[i]),
    ensures
        forall|i: int| 0 <= i < chars::trim(s).len() ==> p(#[trigger] chars::trim(s)[i]),
{
    chars::lemma_trim(s);
    let r = chars::trim(s);
    let a = choose|a: int|
        0 <= a && a + r.len() <= s.len() && #[trigger] s.subrange(a, a + r.len()) == r;
    assert forall|i: int| 0 <= i < r.len() implies p(#[trigger] r[i]) by {
        assert(r[i] == s.subrange(a, a + r.len())[i]);
        assert(p(s[a + i]));
    }
}

proof fn lemma_name_chars(old: Seq<char>)
    requires
        pep508(old) is Some,
    ensures
        forall|i: int|
            0 <= i < (pep508(old)->0).0.len() ==> name_char()(#[trigger] (pep508(old)->0).0[i]),
{
    let b = chars::before(old, ';');
    let r = chars::trim(b);
    let n = chars::leading(r, not_operator()) as int;
    let target = target_of(r);
    let stem = chars::before(target, '[');
    chars::lemma_leading(old, chars::is_not(';'));
    assert forall|i: int| 0 <= i < b.len() implies chars::is_not(';')(#[trigger] b[i]) by {
        assert(chars::is_not(';')(old[i]));
    }
    lemma_trim_all(b, chars::is_not(';'));
    chars::lemma_leading(r, not_operator());
    let p = |c: char| c != ';' && !is_operator(c);
    assert forall|i: int| 0 <= i < r.take(n).len() implies p(#[trigger] r.take(n)[i]) by {
        assert(chars::is_not(';')(r[i]));
        assert(not_operator()(r[i]));
    }
    lemma_trim_all(r.take(n), p);
    assert forall|i: int| 0 <= i < target.len() implies p(#[trigger] target[i]) by {
        if n == r.len() {
            assert(r.take(n) =~= r);
            assert(p(r.take(n)[i]));
        } else {
            assert(p(chars::trim(r.take(n))[i]));
        }
    }
    chars::lemma_leading(target, chars::is_not('['));
    assert forall|i: int| 0 <= i < stem.len() implies name_char()(#[trigger] stem[i]) by {
        assert(chars::is_not('[')(target[i]));
        assert(p(target[i]));
    }
    lemma_trim_all(stem, name_char());
}

proof fn lemma_pinned_name(name: Seq<char>, latest: Seq<char>)
    requires
        name.len() > 0,
        !chars::is_space(name[0]),
        !chars::is_space(name.last()),
        forall|i: int| 0 <= i < name.len() ==> name_char()(#[trigger] name[i]),
        is_version(latest),
    ensures
        pep508(name + "=="@ + latest) == Some((name, "=="@ + latest)),
{
    reveal_strlit("==");
    let v = "=="@ + latest;
    let x = name + "=="@ + latest;
    assert(x =~= name + v);
    assert(is_version_char(latest.last()));
    assert(v.last() == latest.last());
    assert forall|i: int| 0 <= i < x.len() implies #[trigger] x[i] != ';' by {
        if i < name.len() {
            assert(name_char()(name[i]));
        } else if i >= name.len() + 2 {
            assert(x[i] == latest[i - name.len() - 2]);
            assert(is_version_char(latest[i - name.len() - 2]));
        }
    }
    chars::lemma_before_all(x, ';');
    chars::lemma_trim_is(x);
    assert forall|i: int| 0 <= i < name.len() implies not_operator()(#[trigger] x[i]) by {
        assert(name_char()(name[i]));
    }
    assert(x[name.len() as int] == '=');
    chars::lemma_leading_is(x, not_operator(), name.len() as int);
    assert(x.take(name.len() as int) =~= name);
    assert(x.skip(name.len() as int) =~= v);
    chars::lemma_trim_is(name);
    chars::lemma_trim_is(v);
    assert forall|i: int| 0 <= i < name.len() implies #[trigger] name[i] != '[' by {
        assert(name_char()(name[i]));
    }
    chars::lemma_before_all(name, '[');
}

/// A dependency with an operator has its version specifier behind its stem.
proof fn lemma_operator(old: Seq<char>)
    ensures
        ({
            let content = chars::before(old, ';');
            let r = chars::trim(content);
            let o = stem(old).len() as int;
            &&& o == chars::leading(content, not_operator())
            &&& o <= content.len()
            &&& o < content.len() ==> is_operator(content[o]) && target_of(r) == chars::trim(
                content.take(o),
            ) && version_of(r) == chars::trim(content.skip(o)) && chars::leading(r, not_operator())
                < r.len()
            &&& o == content.len() ==> version_of(r) == "*"@
        }),
{
    let b = chars::before(old, ';');
    let o = chars::leading(b, not_operator()) as int;
    chars::lemma_leading(b, not_operator());
    if o < b.len() {
        assert(!not_operator()(b[o]));
        lemma_split(b, o);
    } else {
        let r = chars::trim(b);
        lemma_trim_all(b, not_operator());
        chars::lemma_leading(r, not_operator());
        if chars::leading(r, not_operator()) < r.len() {
            assert(not_operator()(r[chars::leading(r, not_operator()) as int]));
        }
    }
}

proof fn lemma_preserved(old: Seq<char>, latest: Seq<char>)
    requires
        pep508(old) is Some,
        is_version(latest),
        (pep508(old)->0).1 != "*"@,
    ensures
        pep508(stem(old) + operator(old) + latest) == Some(
            ((pep508(old)->0).0, range_prefix((pep508(old)->0).1) + latest),
        ),
{
    let b = chars::before(old, ';');
    let version = (pep508(old)->0).1;
    let p = range_prefix(version);
    lemma_operator(old);
    let o = stem(old).len() as int;
    chars::lemma_leading(old, chars::is_not(';'));
    chars::lemma_leading(b, not_operator());
    chars::lemma_leading(version, chars::not_digit());
    let tail = b.skip(o);
    assert(version == chars::trim(tail));
    assert forall|i: int| 0 <= i < tail.len() implies chars::is_not(';')(#[trigger] tail[i]) by {
        assert(chars::is_not(';')(old[o + i]));
    }
    lemma_trim_all(tail, chars::is_not(';'));
    assert(version.len() > 0 && version[0] == b[o]) by {
        assert(tail[0] == b[o]);
        lemma_trim_first(tail);
    }
    assert(p.len() > 0) by {
        if p.len() == 0 {
            assert(!chars::not_digit()(version[0]));
        }
    }
    let front = stem(old) + p;
    let x = front + latest;
    assert(operator(old) == p);
    assert forall|i: int| 0 <= i < x.len() implies #[trigger] x[i] != ';' by {
        if i < o {
            assert(chars::is_not(';')(old[i]));
        } else if i < front.len() {
            assert(x[i] == version[i - o]);
            assert(chars::is_not(';')(version[i - o]));
        } else {
            assert(x[i] == latest[i - front.len()]);
            assert(is_version_char(latest[i - front.len()]));
        }
    }
    chars::lemma_before_all(x, ';');
    assert(front[o] == b[o]);
    assert forall|i: int| 0 <= i < o implies not_operator()(#[trigger] front[i]) by {
        assert(not_operator()(b[i]));
    }
    lemma_split_new(front, o, latest);
    assert(front.take(o) =~= b.take(o));
    assert(front.skip(o) =~= p);
}

/// A text that starts with no white space starts with the same character once it
/// is trimmed.
proof fn lemma_trim_first(s: Seq<char>)
    requires
        s.len() > 0,
        !chars::is_space(s[0]),
    ensures
        chars::trim(s).len() > 0,
        chars::trim(s)[0] == s[0],
{
    assert(chars::leading(s, chars::space()) == 0);
    assert(s.skip(0) =~= s);
    chars::lemma_trailing(s, chars::space());
    let m = s.len() - chars::trailing(s, chars::space());
    if m <= 0 {
        assert(chars::space()(s[0]));
    }
    assert(chars::trim(s) == s.take(m));
}

/// A text with its first operator at `o`: trimmed, it splits into what stands
/// before the operator and the version specifier.
proof fn lemma_split(b: Seq<char>, o: int)
    requires
        0 <= o < b.len(),
        is_operator(b[o]),
        forall|i: int| 0 <= i < o ==> not_operator()(#[trigger] b[i]),
    ensures
        ({
            let r = chars::trim(b);
            &&& chars::leading(r, not_operator()) < r.len()
            &&& target_of(r) == chars::trim(b.take(o))
            &&& version_of(r) == chars::trim(b.skip(o))
        }),
{
    let w = chars::leading(b, chars::space()) as int;
    chars::lemma_leading(b, chars::space());
    lemma_parts(b, o);
    let t = b.skip(w);
    let r = chars::trim(b);
    chars::lemma_trailing(t, chars::space());
    let e = chars::trailing(t, chars::space()) as int;
    let k = t.len() - e;
    assert(k > o - w) by {
        if k <= o - w {
            assert(chars::space()(t[o - w]));
        }
    }
    assert(r == t.take(k));
    assert forall|i: int| 0 <= i < o - w implies not_operator()(#[trigger] r[i]) by {
        assert(r[i] == b[i + w]);
        assert(not_operator()(b[i + w]));
    }
    assert(r[o - w] == b[o]);
    chars::lemma_leading_is(r, not_operator(), o - w);
    lemma_trim_take(b, w, o);
    assert(r.take(o - w) =~= b.subrange(w, o));
    let tail = r.skip(o - w);
    let all = b.skip(o);
    let blank = all.skip(k - (o - w));
    assert(tail[0] == b[o]);
    assert(tail.last() == t[k - 1]);
    assert(!chars::is_space(tail.last())) by {
        assert(!chars::space()(t[k - 1]));
    }
    chars::lemma_trim_is(tail);
    assert(all =~= Seq::<char>::empty() + tail + blank);
    assert forall|i: int| 0 <= i < blank.len() implies chars::is_space(#[trigger] blank[i]) by {
        assert(blank[i] == t[k + i]);
        assert(chars::space()(t[k + i]));
    }
    chars::lemma_trim_around(Seq::<char>::empty(), tail, blank);
}

/// What is written splits in the same place.
proof fn lemma_split_new(front: Seq<char>, o: int, latest: Seq<char>)
    requires
        0 <= o < front.len(),
        is_operator(front[o]),
        forall|i: int| 0 <= i < o ==> not_operator()(#[trigger] front[i]),
        is_version(latest),
    ensures
        ({
            let r = chars::trim(front + latest);
            &&& chars::leading(r, not_operator()) < r.len()
            &&& target_of(r) == chars::trim(front.take(o))
            &&& version_of(r) == front.skip(o) + latest
        }),
{
    let x = front + latest;
    let w = chars::leading(x, chars::space()) as int;
    chars::lemma_leading(x, chars::space());
    assert(x[o] == front[o]);
    assert(w <= o) by {
        if w > o {
            assert(chars::space()(x[o]));
        }
    }
    let t = x.skip(w);
    assert(is_version_char(latest.last()));
    assert(t.last() == latest.last());
    assert(chars::trailing(t, chars::space()) == 0);
    let r = chars::trim(x);
    assert(r =~= t);
    assert forall|i: int| 0 <= i < o - w implies not_operator()(#[trigger] r[i]) by {
        assert(r[i] == front[i + w]);
        assert(not_operator()(front[i + w]));
    }
    assert(r[o - w] == x[o]);
    chars::lemma_leading_is(r, not_operator(), o - w);
    lemma_trim_take(x, w, o);
    assert(r.take(o - w) =~= x.subrange(w, o));
    assert(x.take(o) =~= front.take(o));
    let v = front.skip(o) + latest;
    assert(r.skip(o - w) =~= v);
    assert(v[0] == front[o]);
    assert(v.last() == latest.last());
    chars::lemma_trim_is(v);
}

/// White space in front is trimmed off a stretch, whether it is in it or not.
proof fn lemma_trim_take(s: Seq<char>, w: int, o: int)
    requires
        w == chars::leading(s, chars::space()),
        w <= o <= s.len(),
    ensures
        chars::trim(s.subrange(w, o)) == chars::trim(s.take(o)),
{
    chars::lemma_leading(s, chars::space());
    let a = s.take(o);
    let c = s.subrange(w, o);
    assert forall|i: int| 0 <= i < w implies chars::space()(#[trigger] a[i]) by {
        assert(chars::space()(s[i]));
    }
    if w < o {
        assert(a[w] == s[w]);
        assert(c[0] == s[w]);
    }
    chars::lemma_leading_is(a, chars::space(), w);
    chars::lemma_leading_is(c, chars::space(), 0);
    assert(a.skip(w) =~= c);
    assert(c.skip(0) =~= c);
}

/// The white space in front ends before the operator.
proof fn lemma_parts(b: Seq<char>, o: int)
    requires
        0 <= o < b.len(),
        is_operator(b[o]),
    ensures
        chars::leading(b, chars::space()) <= o,
{
    chars::lemma_leading(b, chars::space());
    if chars::leading(b, chars::space()) > o {
        assert(chars::space()(b[o]));
    }
}

} // verus!
