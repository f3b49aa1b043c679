//! What a `pyproject.toml` lists, and what updates do to it.
use vstd::prelude::*;
use vstd::string::*;
use crate::chars;
use crate::documents::{toml_finds, toml_tree, undated};
use crate::plugin::{Dep, DepType, is_behind_prefix, lemma_behind_prefix};
use crate::plugins::cargo::says;
use crate::plugins::pyproject::{
    Edit, applied, declares, edits, entry_edits, item_edit, keys, law_written_dependency_reads_back,
    lemma_applied, lemma_descend, lemma_edits, lemma_text_reachable, lemma_texts_apart, list_deps,
    list_edits, list_type, listed, lists_deps, new_spec, on_texts, operator, pep508, stem,
    table_deps, table_edits, value_deps, value_edits,
};
use crate::plugins::requirements::{is_version, new_version, range_prefix, update_for};
use crate::plugins::requirements_laws::{is_marker, is_pieces, lemma_pieces};
use crate::tree::{
    Stride, Tree, at, child, descend, entries_of, key_index, law_put, lemma_at_push,
    lemma_key_index, put, text_at,
};

verus! {

/// A list of packages in a project file.
pub enum Place {
    Normal,
    Optional(Seq<char>),
    Dev,
    Group(Seq<char>),
}

impl Place {
    /// The keys that lead to the list, or to the table that has it.
    pub open spec fn base(self) -> Seq<Seq<char>> {
        match self {
            Place::Normal => seq!["project"@, "dependencies"@],
            Place::Optional(_) => seq!["project"@, "optional-dependencies"@],
            Place::Dev => seq!["tool"@, "uv"@, "dev-dependencies"@],
            Place::Group(_) => seq!["dependency-groups"@],
        }
    }

    /// The path that leads to the list.
    pub open spec fn path(self) -> Seq<Stride> {
        match self {
            Place::Optional(key) => keys(self.base()).push(Stride::Key(key)),
            Place::Group(key) => keys(self.base()).push(Stride::Key(key)),
            _ => keys(self.base()),
        }
    }

    /// The group of the packages in the list.
    pub open spec fn dep_type(self) -> DepType {
        match self {
            Place::Normal => DepType::Normal,
            Place::Optional(key) => list_type(key, false),
            Place::Dev => DepType::Dev,
            Place::Group(key) => list_type(key, true),
        }
    }
}

proof fn lemma_in_list(items: Seq<Tree>, dep_type: DepType, i: int)
    requires
        0 <= i < items.len(),
        items[i] is Text,
        pep508(items[i]->Text_0) is Some,
    ensures
        ({
            let (name, version) = pep508(items[i]->Text_0)->0;
            list_deps(items, dep_type).contains(Dep::fresh(name, version, dep_type))
        }),
    decreases items.len(),
{
    let (name, version) = pep508(items[i]->Text_0)->0;
    let dep = Dep::fresh(name, version, dep_type);
    let all = list_deps(items, dep_type);
    let init = items.drop_last();
    let before = list_deps(init, dep_type);
    if i == items.len() - 1 {
        assert(all[all.len() - 1] == dep);
    } else {
        assert(init[i] == items[i]);
        lemma_in_list(init, dep_type, i);
        let k = choose|k: int| 0 <= k < before.len() && before[k] == dep;
        assert(all[k] == dep);
    }
}

proof fn lemma_in_table(
    entries: Seq<(Seq<char>, Tree)>,
    named: bool,
    m: int,
    dep: Dep,
)
    requires
        0 <= m < entries.len(),
        value_deps(Some(entries[m].1), list_type(entries[m].0, named)).contains(dep),
    ensures
        table_deps(entries, named).contains(dep),
    decreases entries.len(),
{
    let init = entries.drop_last();
    let before = table_deps(init, named);
    let last = value_deps(Some(entries.last().1), list_type(entries.last().0, named));
    let all = table_deps(entries, named);
    if m == entries.len() - 1 {
        let k = choose|k: int| 0 <= k < last.len() && last[k] == dep;
        assert(all[before.len() + k] == dep);
    } else {
        assert(init[m] == entries[m]);
        lemma_in_table(init, named, m, dep);
        let k = choose|k: int| 0 <= k < before.len() && before[k] == dep;
        assert(all[k] == dep);
    }
}

/// A text in a place that packages are listed in is listed.
proof fn lemma_is_listed(t: Tree, place: Place, i: int, spec: Seq<char>)
    requires
        text_at(t, place.path().push(Stride::At(i))) == Some(spec),
        pep508(spec) is Some,
    ensures
        ({
            let (name, version) = pep508(spec)->0;
            listed(t).contains(Dep::fresh(name, version, place.dep_type()))
        }),
{
    let (name, version) = pep508(spec)->0;
    let dep = Dep::fresh(name, version, place.dep_type());
    let a = value_deps(descend(t, Place::Normal.base()), DepType::Normal);
    let b = lists_deps(descend(t, seq!["project"@, "optional-dependencies"@]), false);
    let c = value_deps(descend(t, Place::Dev.base()), DepType::Dev);
    let d = lists_deps(child(t, "dependency-groups"@), true);
    let all = listed(t);
    assert(all =~= a + b + c + d);
    lemma_at_push(t, place.path(), Stride::At(i));
    lemma_descend(t, place.base());
    assert(at(t, place.path()) is Some);
    let list = at(t, place.path())->0;
    assert(list is List);
    let items = list->List_0;
    lemma_in_list(items, place.dep_type(), i);
    match place {
        Place::Normal => {
            let k = choose|k: int| 0 <= k < a.len() && a[k] == dep;
            assert(all[k] == dep);
        },
        Place::Optional(key) => {
            lemma_listed_in_table(t, place, key, false, dep);
            let k = choose|k: int| 0 <= k < b.len() && b[k] == dep;
            assert(all[a.len() + k] == dep);
        },
        Place::Dev => {
            let k = choose|k: int| 0 <= k < c.len() && c[k] == dep;
            assert(all[a.len() + b.len() + k] == dep);
        },
        Place::Group(key) => {
            reveal_with_fuel(descend, 2);
            assert(seq!["dependency-groups"@].skip(1) =~= seq![]);
            lemma_listed_in_table(t, place, key, true, dep);
            let k = choose|k: int| 0 <= k < d.len() && d[k] == dep;
            assert(all[a.len() + b.len() + c.len() + k] == dep);
        },
    }
}

proof fn lemma_listed_in_table(t: Tree, place: Place, key: Seq<char>, named: bool, dep: Dep)
    requires
        place.path() == keys(place.base()).push(Stride::Key(key)),
        value_deps(at(t, place.path()), list_type(key, named)).contains(dep),
    ensures
        lists_deps(descend(t, place.base()), named).contains(dep),
{
    lemma_descend(t, place.base());
    lemma_at_push(t, keys(place.base()), Stride::Key(key));
    assert(at(t, place.path()) is Some);
    let entries = entries_of(descend(t, place.base())->0);
    lemma_key_index(entries, key);
    lemma_in_table(entries, named, key_index(entries, key), dep);
}

/// A text that says what a project file holds lists each package of that file,
/// where it can be read for a listing.
pub proof fn law_written_file_lists_all(
    s: Seq<char>,
    t: Tree,
    place: Place,
    i: int,
    spec: Seq<char>,
)
    requires
        says(s, t),
        toml_tree(s) is Some,
        undated(t),
        text_at(t, place.path().push(Stride::At(i))) == Some(spec),
        pep508(spec) is Some,
    ensures
        ({
            let (name, version) = pep508(spec)->0;
            listed(toml_tree(s)->0).contains(Dep::fresh(name, version, place.dep_type()))
        }),
{
    let q = place.path().push(Stride::At(i));
    assert(toml_finds(s, t));
    assert(text_at(toml_tree(s)->0, q) == text_at(t, q));
    lemma_is_listed(toml_tree(s)->0, place, i, spec);
}

/// The edit is what is due for the item in its place.
spec fn is_due(doc: Tree, edit: Edit, updates: Seq<Dep>, preserve: bool) -> bool {
    at(doc, edit.0) is Some && item_edit(at(doc, edit.0)->0, updates, preserve) == Some(edit.1)
}

spec fn all_due(doc: Tree, edits: Seq<Edit>, updates: Seq<Dep>, preserve: bool) -> bool {
    forall|i: int| 0 <= i < edits.len() ==> is_due(doc, #[trigger] edits[i], updates, preserve)
}

proof fn lemma_list_due(
    doc: Tree,
    path: Seq<Stride>,
    all: Seq<Tree>,
    n: int,
    updates: Seq<Dep>,
    preserve: bool,
)
    requires
        at(doc, path) == Some(Tree::List(all)),
        0 <= n <= all.len(),
    ensures
        all_due(doc, list_edits(path, all.take(n), updates, preserve), updates, preserve),
        forall|i: int|
            0 <= i < n && item_edit(#[trigger] all[i], updates, preserve) is Some ==> list_edits(
                path,
                all.take(n),
                updates,
                preserve,
            ).contains((path.push(Stride::At(i)), item_edit(all[i], updates, preserve)->0)),
    decreases n,
{
    if n > 0 {
        let items = all.take(n);
        let before = list_edits(path, all.take(n - 1), updates, preserve);
        let out = list_edits(path, items, updates, preserve);
        lemma_list_due(doc, path, all, n - 1, updates, preserve);
        assert(items.drop_last() =~= all.take(n - 1));
        lemma_at_push(doc, path, Stride::At(n - 1));
        assert(items.last() == all[n - 1]);
        assert forall|i: int|
            0 <= i < n && item_edit(#[trigger] all[i], updates, preserve) is Some implies out.contains(
            (path.push(Stride::At(i)), item_edit(all[i], updates, preserve)->0),
        ) by {
            let edit = (path.push(Stride::At(i)), item_edit(all[i], updates, preserve)->0);
            if i < n - 1 {
                let k = choose|k: int| 0 <= k < before.len() && before[k] == edit;
                assert(out[k] == edit);
            } else {
                assert(out[out.len() - 1] == edit);
            }
        }
    }
}

proof fn lemma_value_due(doc: Tree, path: Seq<Stride>, updates: Seq<Dep>, preserve: bool)
    ensures
        all_due(doc, value_edits(path, at(doc, path), updates, preserve), updates, preserve),
        forall|i: int|
            item_edit_at(doc, path, i, updates, preserve) is Some ==> value_edits(
                path,
                at(doc, path),
                updates,
                preserve,
            ).contains(
                (
                    #[trigger] path.push(Stride::At(i)),
                    item_edit_at(doc, path, i, updates, preserve)->0,
                ),
            ),
{
    if let Some(Tree::List(items)) = at(doc, path) {
        lemma_list_due(doc, path, items, items.len() as int, updates, preserve);
        assert(items.take(items.len() as int) =~= items);
    }
    assert forall|i: int| item_edit_at(doc, path, i, updates, preserve) is Some implies value_edits(
        path,
        at(doc, path),
        updates,
        preserve,
    ).contains(
        (#[trigger] path.push(Stride::At(i)), item_edit_at(doc, path, i, updates, preserve)->0),
    ) by {
        lemma_at_push(doc, path, Stride::At(i));
        let items = at(doc, path)->0->List_0;
        assert(item_edit(items[i], updates, preserve) is Some);
    }
}

/// What is due for an item of the list that the path leads to.
spec fn item_edit_at(
    doc: Tree,
    path: Seq<Stride>,
    i: int,
    updates: Seq<Dep>,
    preserve: bool,
) -> Option<Seq<char>> {
    match at(doc, path.push(Stride::At(i))) {
        Some(item) => item_edit(item, updates, preserve),
        None => None,
    }
}

proof fn lemma_entries_due(
    doc: Tree,
    path: Seq<Stride>,
    n: int,
    updates: Seq<Dep>,
    preserve: bool,
)
    requires
        at(doc, path) is Some,
        n <= entries_of(at(doc, path)->0).len(),
    ensures
        all_due(
            doc,
            entry_edits(path, at(doc, path)->0, n, updates, preserve),
            updates,
            preserve,
        ),
    decreases n,
{
    if n > 0 {
        let key = entries_of(at(doc, path)->0)[n - 1].0;
        lemma_entries_due(doc, path, n - 1, updates, preserve);
        lemma_at_push(doc, path, Stride::Key(key));
        lemma_value_due(doc, path.push(Stride::Key(key)), updates, preserve);
    }
}

/// What is to be written in one list of a table is to be written in the table.
proof fn lemma_in_entry_edits(
    path: Seq<Stride>,
    table: Tree,
    n: int,
    updates: Seq<Dep>,
    preserve: bool,
    m: int,
    edit: Edit,
)
    requires
        0 <= m < n <= entries_of(table).len(),
        value_edits(
            path.push(Stride::Key(entries_of(table)[m].0)),
            child(table, entries_of(table)[m].0),
            updates,
            preserve,
        ).contains(edit),
    ensures
        entry_edits(path, table, n, updates, preserve).contains(edit),
    decreases n,
{
    let key = entries_of(table)[n - 1].0;
    let before = entry_edits(path, table, n - 1, updates, preserve);
    let new = value_edits(path.push(Stride::Key(key)), child(table, key), updates, preserve);
    let out = entry_edits(path, table, n, updates, preserve);
    if m < n - 1 {
        lemma_in_entry_edits(path, table, n - 1, updates, preserve, m, edit);
        let k = choose|k: int| 0 <= k < before.len() && before[k] == edit;
        assert(out[k] == edit);
    } else {
        let k = choose|k: int| 0 <= k < new.len() && new[k] == edit;
        assert(out[before.len() + k] == edit);
    }
}

proof fn lemma_table_due(doc: Tree, path: Seq<Stride>, updates: Seq<Dep>, preserve: bool)
    ensures
        all_due(doc, table_edits(path, at(doc, path), updates, preserve), updates, preserve),
{
    if let Some(table) = at(doc, path) {
        lemma_entries_due(doc, path, entries_of(table).len() as int, updates, preserve);
    }
}

proof fn lemma_all_due(doc: Tree, updates: Seq<Dep>, preserve: bool)
    ensures
        all_due(doc, edits(doc, updates, preserve), updates, preserve),
{
    let normal = Place::Normal.base();
    let optional = seq!["project"@, "optional-dependencies"@];
    let dev = Place::Dev.base();
    let groups = seq!["dependency-groups"@];
    lemma_descend(doc, normal);
    lemma_descend(doc, optional);
    lemma_descend(doc, dev);
    lemma_descend(doc, groups);
    lemma_value_due(doc, keys(normal), updates, preserve);
    lemma_table_due(doc, keys(optional), updates, preserve);
    lemma_value_due(doc, keys(dev), updates, preserve);
    lemma_table_due(doc, keys(groups), updates, preserve);
}

/// What is due for an item of a list is among the edits.
proof fn lemma_is_edited(doc: Tree, place: Place, i: int, updates: Seq<Dep>, preserve: bool)
    requires
        item_edit_at(doc, place.path(), i, updates, preserve) is Some,
    ensures
        edits(doc, updates, preserve).contains(
            (
                place.path().push(Stride::At(i)),
                item_edit_at(doc, place.path(), i, updates, preserve)->0,
            ),
        ),
{
    let edit = (
        place.path().push(Stride::At(i)),
        item_edit_at(doc, place.path(), i, updates, preserve)->0,
    );
    let normal = Place::Normal.base();
    let optional = seq!["project"@, "optional-dependencies"@];
    let dev = Place::Dev.base();
    let groups = seq!["dependency-groups"@];
    let a = value_edits(keys(normal), descend(doc, normal), updates, preserve);
    let b = table_edits(keys(optional), descend(doc, optional), updates, preserve);
    let c = value_edits(keys(dev), descend(doc, dev), updates, preserve);
    let d = table_edits(keys(groups), descend(doc, groups), updates, preserve);
    let all = edits(doc, updates, preserve);
    assert(all =~= a + b + c + d);
    lemma_descend(doc, place.base());
    match place {
        Place::Normal => {
            lemma_value_due(doc, keys(normal), updates, preserve);
            let k = choose|k: int| 0 <= k < a.len() && a[k] == edit;
            assert(all[k] == edit);
        },
        Place::Optional(key) => {
            lemma_in_table_edits(doc, place, key, i, updates, preserve);
            let k = choose|k: int| 0 <= k < b.len() && b[k] == edit;
            assert(all[a.len() + k] == edit);
        },
        Place::Dev => {
            lemma_value_due(doc, keys(dev), updates, preserve);
            let k = choose|k: int| 0 <= k < c.len() && c[k] == edit;
            assert(all[a.len() + b.len() + k] == edit);
        },
        Place::Group(key) => {
            lemma_in_table_edits(doc, place, key, i, updates, preserve);
            let k = choose|k: int| 0 <= k < d.len() && d[k] == edit;
            assert(all[a.len() + b.len() + c.len() + k] == edit);
        },
    }
}

proof fn lemma_in_table_edits(
    doc: Tree,
    place: Place,
    key: Seq<char>,
    i: int,
    updates: Seq<Dep>,
    preserve: bool,
)
    requires
        place.path() == keys(place.base()).push(Stride::Key(key)),
        item_edit_at(doc, place.path(), i, updates, preserve) is Some,
    ensures
        table_edits(
            keys(place.base()),
            descend(doc, place.base()),
            updates,
            preserve,
        ).contains(
            (
                place.path().push(Stride::At(i)),
                item_edit_at(doc, place.path(), i, updates, preserve)->0,
            ),
        ),
{
    let path = keys(place.base());
    let edit = (
        place.path().push(Stride::At(i)),
        item_edit_at(doc, place.path(), i, updates, preserve)->0,
    );
    lemma_descend(doc, place.base());
    lemma_at_push(doc, path, Stride::Key(key));
    lemma_at_push(doc, place.path(), Stride::At(i));
    let table = at(doc, path)->0;
    let entries = entries_of(table);
    lemma_key_index(entries, key);
    let m = key_index(entries, key);
    lemma_value_due(doc, place.path(), updates, preserve);
    lemma_in_entry_edits(path, table, entries.len() as int, updates, preserve, m, edit);
}

/// Where all edits of a place write the same, that stands there in the end.
proof fn lemma_settled(doc: Tree, edits: Seq<Edit>, q: Seq<Stride>, v: Seq<char>)
    requires
        on_texts(doc, edits),
        text_at(doc, q) is Some,
        forall|i: int| 0 <= i < edits.len() && (#[trigger] edits[i]).0 == q ==> edits[i].1 == v,
        edits.contains((q, v)),
    ensures
        text_at(applied(doc, edits), q) == Some(v),
    decreases edits.len(),
{
    let init = edits.drop_last();
    let (path, s) = edits.last();
    let before = applied(doc, init);
    assert(edits[edits.len() - 1] == edits.last());
    assert(on_texts(doc, init)) by {
        assert forall|k: int| 0 <= k < init.len() implies (#[trigger] init[k]).0.len() > 0
            && text_at(doc, init[k].0) is Some by {
            assert(init[k] == edits[k]);
        }
    }
    lemma_applied(doc, init, path);
    lemma_applied(doc, init, q);
    lemma_text_reachable(before, path);
    law_put(before, path, s);
    if path != q {
        assert forall|k: int| 0 <= k < init.len() && (#[trigger] init[k]).0 == q implies init[k].1
            == v by {
            assert(init[k] == edits[k]);
        }
        let k = choose|k: int| 0 <= k < edits.len() && edits[k] == (q, v);
        assert(init[k] == (q, v));
        lemma_settled(doc, init, q, v);
        lemma_texts_apart(before, path, q);
        assert(at(put(before, path, s), q) == at(before, q));
    }
}

/// A project file with updates holds, in the place of each package that an update
/// is of, that package at the latest version, and the text of such a file lists
/// it so where it can be read for a listing. A dependency on any version has no
/// operator to preserve.
pub proof fn law_updated_file_lists_the_updates(
    s: Seq<char>,
    doc: Tree,
    updates: Seq<Dep>,
    preserve: bool,
    place: Place,
    i: int,
    old: Seq<char>,
    latest: Seq<char>,
)
    requires
        text_at(doc, place.path().push(Stride::At(i))) == Some(old),
        pep508(old) is Some,
        (pep508(old)->0).0.len() > 0,
        update_for(updates, (pep508(old)->0).0) is Some,
        update_for(updates, (pep508(old)->0).0)->0.latest == Some(latest),
        is_version(latest),
        preserve ==> (pep508(old)->0).1 != "*"@,
        says(s, applied(doc, edits(doc, updates, preserve))),
        toml_tree(s) is Some,
        undated(applied(doc, edits(doc, updates, preserve))),
    ensures
        ({
            let (name, version) = pep508(old)->0;
            let new = new_version(version, latest, preserve);
            &&& text_at(
                applied(doc, edits(doc, updates, preserve)),
                place.path().push(Stride::At(i)),
            ) == Some(new_spec(old, name, latest, preserve))
            &&& listed(toml_tree(s)->0).contains(Dep::fresh(name, new, place.dep_type()))
        }),
{
    let (name, version) = pep508(old)->0;
    let q = place.path().push(Stride::At(i));
    let v = new_spec(old, name, latest, preserve);
    let all = edits(doc, updates, preserve);
    assert(item_edit_at(doc, place.path(), i, updates, preserve) == Some(v));
    lemma_is_edited(doc, place, i, updates, preserve);
    lemma_all_due(doc, updates, preserve);
    lemma_edits(doc, updates, preserve);
    assert forall|k: int| 0 <= k < all.len() && (#[trigger] all[k]).0 == q implies all[k].1
        == v by {
        assert(is_due(doc, all[k], updates, preserve));
    }
    lemma_settled(doc, all, q, v);
    law_written_dependency_reads_back(old, latest, preserve);
    law_written_file_lists_all(s, applied(doc, all), place, i, v);
}

/// A dependency is a name with its extras, the specifiers behind it, and a marker that
/// does not count. Without specifiers any version will do.
pub proof fn law_dependency(
    front: Seq<char>,
    name: Seq<char>,
    extras: Seq<char>,
    gap: Seq<char>,
    spec: Seq<char>,
    mark: Seq<char>,
)
    requires
        forall|i: int| 0 <= i < front.len() ==> chars::is_space(#[trigger] front[i]),
        is_pieces(name, extras, gap, spec),
        is_marker(mark),
    ensures
        pep508(front + (name + extras + gap + spec) + mark) == Some(
            (
                name,
                if spec.len() == 0 {
                    "*"@
                } else {
                    spec
                },
            ),
        ),
{
    let core = name + extras + gap + spec;
    lemma_pieces(name, extras, gap, spec);
    lemma_before_mark(front, core, mark);
    lemma_trim_behind(front, core);
}

proof fn lemma_before_mark(front: Seq<char>, core: Seq<char>, mark: Seq<char>)
    requires
        forall|i: int| 0 <= i < front.len() ==> chars::is_space(#[trigger] front[i]),
        forall|i: int| 0 <= i < core.len() ==> #[trigger] core[i] != ';',
        is_marker(mark),
    ensures
        chars::before(front + core + mark, ';') == front + core,
{
    let text = front + core;
    let all = text + mark;
    assert forall|i: int| 0 <= i < text.len() implies #[trigger] all[i] != ';' by {
        if i < front.len() {
            assert(all[i] == front[i]);
        } else {
            assert(all[i] == core[i - front.len()]);
        }
    }
    if mark.len() > 0 {
        assert(all[text.len() as int] == ';');
        chars::lemma_before(all, ';', text.len() as int);
        assert(all.take(text.len() as int) =~= text);
    } else {
        assert(all =~= text);
        chars::lemma_before_all(all, ';');
    }
}

proof fn lemma_trim_behind(front: Seq<char>, core: Seq<char>)
    requires
        forall|i: int| 0 <= i < front.len() ==> chars::is_space(#[trigger] front[i]),
        core.len() > 0,
        !chars::is_space(core[0]),
    ensures
        chars::trim(front + core) == chars::trim(core),
{
    let text = front + core;
    assert(text[front.len() as int] == core[0]);
    assert forall|i: int| 0 <= i < front.len() implies chars::space()(#[trigger] text[i]) by {
        assert(text[i] == front[i]);
    }
    chars::lemma_leading_is(text, chars::space(), front.len() as int);
    assert(text.skip(front.len() as int) =~= core);
    assert(chars::leading(core, chars::space()) == 0);
    assert(core.skip(0) =~= core);
}

/// What is written: with ranges preserved all that stood before the specifiers, and the
/// latest version behind what stood before their first digit; else the name and the
/// latest version, pinned by two equals signs.
pub proof fn law_latest_version_is_written(
    name: Seq<char>,
    extras: Seq<char>,
    gap: Seq<char>,
    spec: Seq<char>,
    mark: Seq<char>,
    latest: Seq<char>,
)
    requires
        is_pieces(name, extras, gap, spec),
        is_marker(mark),
    ensures
        ({
            let old = name + extras + gap + spec + mark;
            let kept = name + extras + gap;
            let r = new_spec(old, name, latest, true);
            &&& r.len() >= kept.len()
            &&& r.take(kept.len() as int) == kept
            &&& is_behind_prefix(r.skip(kept.len() as int), spec, latest)
            &&& new_spec(old, name, latest, false) == name + seq!['=', '='] + latest
        }),
{
    let old = name + extras + gap + spec + mark;
    let kept = name + extras + gap;
    lemma_stem(name, extras, gap, spec, mark);
    lemma_behind_prefix(spec, latest);
    let w = range_prefix(spec) + latest;
    let r = new_spec(old, name, latest, true);
    assert(r =~= kept + w);
    assert(r.take(kept.len() as int) =~= kept);
    assert(r.skip(kept.len() as int) =~= w);
    reveal_strlit("==");
    assert("=="@ =~= seq!['=', '=']);
}

proof fn lemma_stem(
    name: Seq<char>,
    extras: Seq<char>,
    gap: Seq<char>,
    spec: Seq<char>,
    mark: Seq<char>,
)
    requires
        is_pieces(name, extras, gap, spec),
        is_marker(mark),
    ensures
        stem(name + extras + gap + spec + mark) == name + extras + gap,
        operator(name + extras + gap + spec + mark) == range_prefix(spec),
{
    let core = name + extras + gap + spec;
    let old = core + mark;
    let kept = name + extras + gap;
    let none = Seq::<char>::empty();
    lemma_pieces(name, extras, gap, spec);
    lemma_before_mark(none, core, mark);
    assert(none + core + mark =~= old);
    assert(none + core =~= core);
    assert(chars::before(old, ';') == core);
    assert(core.take(kept.len() as int) =~= kept);
    assert(stem(old) == kept);
    if spec.len() == 0 {
        chars::lemma_leading(spec, chars::not_digit());
        assert(operator(old) =~= range_prefix(spec));
    }
}

/// The list asks for the dependency in a group: by a text in it.
pub open spec fn is_item(t: Option<Tree>, dep_type: DepType, d: Dep) -> bool {
    &&& t is Some
    &&& t->0 is List
    &&& exists|i: int, s: Seq<char>|
        #![trigger t->0->List_0[i], pep508(s)]
        0 <= i < t->0->List_0.len() && t->0->List_0[i] == Tree::Text(s) && pep508(s) == Some(
            (d.name, d.current),
        )
    &&& d.dep_type == dep_type
    &&& d.latest is None
    &&& !d.satisfied
    &&& !d.check_failed
    &&& d.peers.len() == 0
    &&& d.held_back.len() == 0
}

proof fn lemma_items(items: Seq<Tree>, dep_type: DepType, d: Dep)
    ensures
        list_deps(items, dep_type).contains(d) <==> is_item(Some(Tree::List(items)), dep_type, d),
    decreases items.len(),
{
    let all = list_deps(items, dep_type);
    if d.peers.len() == 0 && d.held_back.len() == 0 {
        assert(d.peers =~= seq![]);
        assert(d.held_back =~= seq![]);
    }
    if items.len() > 0 {
        let front = items.drop_last();
        let before = list_deps(front, dep_type);
        let n = items.len() - 1;
        lemma_items(front, dep_type, d);
        if before.contains(d) {
            let (i, s) = choose|i: int, s: Seq<char>|
                #![trigger front[i], pep508(s)]
                0 <= i < front.len() && front[i] == Tree::Text(s) && pep508(s) == Some(
                    (d.name, d.current),
                );
            assert(items[i] == Tree::Text(s));
        }
        if is_item(Some(Tree::List(items)), dep_type, d) {
            let (i, s) = choose|i: int, s: Seq<char>|
                #![trigger items[i], pep508(s)]
                0 <= i < items.len() && items[i] == Tree::Text(s) && pep508(s) == Some(
                    (d.name, d.current),
                );
            if i < n {
                assert(front[i] == Tree::Text(s));
                assert(is_item(Some(Tree::List(front)), dep_type, d));
            } else {
                assert(items.last() == Tree::Text(s));
                assert(d =~= Dep::fresh(d.name, d.current, dep_type));
                assert(all[before.len() as int] == d);
            }
        }
        if let Tree::Text(s) = items.last() {
            if let Some((name, version)) = pep508(s) {
                let fresh = Dep::fresh(name, version, dep_type);
                assert(all == before.push(fresh));
                if before.contains(d) {
                    let i = choose|i: int| 0 <= i < before.len() && before[i] == d;
                    assert(all[i] == d);
                }
                if all.contains(d) && !before.contains(d) {
                    let i = choose|i: int| 0 <= i < all.len() && all[i] == d;
                    if i < before.len() {
                        assert(before[i] == d);
                    }
                    assert(items[n] == Tree::Text(s));
                    assert(pep508(s) == Some((d.name, d.current)));
                }
            }
        }
    }
}

proof fn lemma_value(t: Option<Tree>, dep_type: DepType, d: Dep)
    ensures
        value_deps(t, dep_type).contains(d) <==> is_item(t, dep_type, d),
{
    if let Some(Tree::List(items)) = t {
        lemma_items(items, dep_type, d);
    }
}

/// A table of lists asks for the dependency. Of the groups with names of their own, the
/// one named `dev` is for development, and the others are optional.
pub open spec fn is_in_lists(t: Option<Tree>, named: bool, d: Dep) -> bool {
    &&& t is Some
    &&& exists|i: int|
        0 <= i < entries_of(t->0).len() && is_item(
            Some((#[trigger] entries_of(t->0)[i]).1),
            if named && entries_of(t->0)[i].0 == "dev"@ {
                DepType::Dev
            } else {
                DepType::Optional
            },
            d,
        )
}

proof fn lemma_table(entries: Seq<(Seq<char>, Tree)>, named: bool, d: Dep)
    ensures
        table_deps(entries, named).contains(d) <==> exists|i: int|
            0 <= i < entries.len() && is_item(
                Some((#[trigger] entries[i]).1),
                list_type(entries[i].0, named),
                d,
            ),
    decreases entries.len(),
{
    if entries.len() > 0 {
        let front = entries.drop_last();
        let n = entries.len() - 1;
        let a = table_deps(front, named);
        let b = value_deps(Some(entries.last().1), list_type(entries.last().0, named));
        lemma_table(front, named, d);
        lemma_value(Some(entries.last().1), list_type(entries.last().0, named), d);
        lemma_two(a, b, d);
        if a.contains(d) {
            let i = choose|i: int|
                0 <= i < front.len() && is_item(
                    Some((#[trigger] front[i]).1),
                    list_type(front[i].0, named),
                    d,
                );
            assert(entries[i] == front[i]);
        }
        if b.contains(d) {
            assert(entries[n] == entries.last());
        }
        if exists|i: int|
            0 <= i < entries.len() && is_item(
                Some((#[trigger] entries[i]).1),
                list_type(entries[i].0, named),
                d,
            ) {
            let i = choose|i: int|
                0 <= i < entries.len() && is_item(
                    Some((#[trigger] entries[i]).1),
                    list_type(entries[i].0, named),
                    d,
                );
            if i < n {
                assert(front[i] == entries[i]);
            }
        }
    }
}

proof fn lemma_two<A>(a: Seq<A>, b: Seq<A>, d: A)
    ensures
        (a + b).contains(d) <==> a.contains(d) || b.contains(d),
{
    let all = a + b;
    if all.contains(d) {
        let i = choose|i: int| 0 <= i < all.len() && all[i] == d;
        if i < a.len() {
            assert(a[i] == d);
        } else {
            assert(b[i - a.len()] == d);
        }
    }
    if a.contains(d) {
        let i = choose|i: int| 0 <= i < a.len() && a[i] == d;
        assert(all[i] == d);
    }
    if b.contains(d) {
        let i = choose|i: int| 0 <= i < b.len() && b[i] == d;
        assert(all[i + a.len()] == d);
    }
}

/// What stands under the key, where there is anything to look in.
pub open spec fn below(t: Option<Tree>, key: Seq<char>) -> Option<Tree> {
    match t {
        Some(t) => child(t, key),
        None => None,
    }
}

proof fn lemma_below(doc: Tree, a: Seq<char>, b: Seq<char>, c: Seq<char>)
    ensures
        descend(doc, seq![a, b]) == below(child(doc, a), b),
        descend(doc, seq![a, b, c]) == below(below(child(doc, a), b), c),
{
    reveal_with_fuel(descend, 4);
    assert(seq![a, b].skip(1) =~= seq![b]);
    assert(seq![b].skip(1) =~= seq![]);
    assert(seq![a, b, c].skip(1) =~= seq![b, c]);
    assert(seq![b, c].skip(1) =~= seq![c]);
    assert(seq![c].skip(1) =~= seq![]);
}

/// What a file lists: the dependencies of the project, its optional ones, the
/// development ones of uv, and those of the dependency groups. Nothing else is listed.
pub proof fn law_listed_dependencies(doc: Tree, d: Dep)
    ensures
        listed(doc).contains(d) <==> {
            ||| is_item(below(child(doc, "project"@), "dependencies"@), DepType::Normal, d)
            ||| is_in_lists(below(child(doc, "project"@), "optional-dependencies"@), false, d)
            ||| is_item(
                below(below(child(doc, "tool"@), "uv"@), "dev-dependencies"@),
                DepType::Dev,
                d,
            )
            ||| is_in_lists(child(doc, "dependency-groups"@), true, d)
        },
{
    let normal = descend(doc, seq!["project"@, "dependencies"@]);
    let optional = descend(doc, seq!["project"@, "optional-dependencies"@]);
    let dev = descend(doc, seq!["tool"@, "uv"@, "dev-dependencies"@]);
    let groups = child(doc, "dependency-groups"@);
    lemma_below(doc, "project"@, "dependencies"@, ""@);
    lemma_below(doc, "project"@, "optional-dependencies"@, ""@);
    lemma_below(doc, "tool"@, "uv"@, "dev-dependencies"@);
    lemma_value(normal, DepType::Normal, d);
    lemma_value(dev, DepType::Dev, d);
    lemma_lists(optional, false, d);
    lemma_lists(groups, true, d);
    let a = value_deps(normal, DepType::Normal);
    let b = lists_deps(optional, false);
    let c = value_deps(dev, DepType::Dev);
    let e = lists_deps(groups, true);
    lemma_two(a, b, d);
    lemma_two(a + b, c, d);
    lemma_two(a + b + c, e, d);
}

proof fn lemma_lists(t: Option<Tree>, named: bool, d: Dep)
    ensures
        lists_deps(t, named).contains(d) <==> is_in_lists(t, named, d),
{
    if let Some(table) = t {
        let entries = entries_of(table);
        lemma_table(entries, named, d);
        if lists_deps(t, named).contains(d) {
            let i = choose|i: int|
                0 <= i < entries.len() && is_item(
                    Some((#[trigger] entries[i]).1),
                    list_type(entries[i].0, named),
                    d,
                );
            assert(is_item(Some(entries_of(t->0)[i].1), list_type(entries[i].0, named), d));
        }
        if is_in_lists(t, named, d) {
            let i = choose|i: int|
                0 <= i < entries_of(t->0).len() && is_item(
                    Some((#[trigger] entries_of(t->0)[i]).1),
                    if named && entries_of(t->0)[i].0 == "dev"@ {
                        DepType::Dev
                    } else {
                        DepType::Optional
                    },
                    d,
                );
            assert(is_item(Some(entries[i].1), list_type(entries[i].0, named), d));
        }
    }
}

/// A file is looked after where it has one of the four places that are read, whatever
/// stands there.
pub proof fn law_declares(doc: Tree)
    ensures
        declares(doc) <==> {
            ||| below(child(doc, "project"@), "dependencies"@) is Some
            ||| below(child(doc, "project"@), "optional-dependencies"@) is Some
            ||| below(below(child(doc, "tool"@), "uv"@), "dev-dependencies"@) is Some
            ||| child(doc, "dependency-groups"@) is Some
        },
{
    lemma_below(doc, "project"@, "dependencies"@, ""@);
    lemma_below(doc, "project"@, "optional-dependencies"@, ""@);
    lemma_below(doc, "tool"@, "uv"@, "dev-dependencies"@);
}

} // verus!
