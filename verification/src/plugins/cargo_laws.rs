//! What a `Cargo.toml` lists, and what lookups and updates do to it.
use vstd::prelude::*;
use crate::chars;
use crate::documents::{toml_finds, toml_tree, undated};
use crate::plugin::{Dep, DepType, is_behind_prefix, lemma_behind_prefix};
use crate::plugins::cargo::{
    asked_version, edit_of, edited, group_deps, listed, looked_up, new_version, resolved,
    same_entry, says, section_deps, section_name, updated, usable,
};
use crate::plugins::npm_laws::{lemma_reaches, lemma_three};
use crate::ranges::semver_admits;
use crate::tree::{
    Stride, Tree, at, child, entries_of, key_index, keyed, law_put, lemma_at_push, lemma_key_index,
    lemma_key_index_is, lemma_put_child, put, put_entry, reachable, step_to, text_at,
};

verus! {

/// The section that an update writes to, where the manifest has it, names each
/// dependency once, and that of the update with a version.
pub open spec fn writable(doc: Tree, update: Dep) -> bool {
    match child(doc, section_name(update.dep_type)) {
        Some(section) => {
            &&& keyed(entries_of(section))
            &&& match child(section, update.name) {
                Some(entry) => asked_version(entry) is Some,
                None => true,
            }
        },
        None => true,
    }
}

/// A dependency after an update: at the new version where the update is of its entry.
pub open spec fn moved(dep: Dep, update: Dep, preserve: bool) -> Dep {
    match update.latest {
        Some(latest) => if same_entry(dep, update) {
            Dep { current: new_version(dep.current, latest, preserve), ..dep }
        } else {
            dep
        },
        None => dep,
    }
}

/// A dependency after the updates.
pub open spec fn moved_on(dep: Dep, updates: Seq<Dep>, preserve: bool) -> Dep
    decreases updates.len(),
{
    if updates.len() == 0 {
        dep
    } else {
        moved(moved_on(dep, updates.drop_last(), preserve), updates.last(), preserve)
    }
}

/// The dependencies after the updates.
pub open spec fn moved_all(items: Seq<Dep>, updates: Seq<Dep>, preserve: bool) -> Seq<Dep> {
    items.map_values(|dep: Dep| moved_on(dep, updates, preserve))
}

/// The entry says of its dependency, after an update, what the other entry says.
spec fn follows(
    before: (Seq<char>, Tree),
    after: (Seq<char>, Tree),
    dep_type: DepType,
    update: Dep,
    preserve: bool,
) -> bool {
    &&& before.0 == after.0
    &&& match (asked_version(before.1), asked_version(after.1)) {
        (Some(x), Some(y)) => moved(Dep::fresh(before.0, x, dep_type), update, preserve)
            == Dep::fresh(after.0, y, dep_type),
        (None, None) => true,
        _ => false,
    }
}

proof fn lemma_section_follows(
    before: Seq<(Seq<char>, Tree)>,
    after: Seq<(Seq<char>, Tree)>,
    dep_type: DepType,
    update: Dep,
    preserve: bool,
)
    requires
        before.len() == after.len(),
        forall|i: int|
            0 <= i < before.len() ==> #[trigger] follows(
                before[i],
                after[i],
                dep_type,
                update,
                preserve,
            ),
    ensures
        section_deps(after, dep_type) == section_deps(before, dep_type).map_values(
            |dep: Dep| moved(dep, update, preserve),
        ),
    decreases before.len(),
{
    let step = |dep: Dep| moved(dep, update, preserve);
    if before.len() == 0 {
        assert(section_deps(after, dep_type) =~= section_deps(before, dep_type).map_values(step));
    } else {
        let n = before.len() - 1;
        let (b, a) = (before.drop_last(), after.drop_last());
        assert forall|i: int| 0 <= i < b.len() implies #[trigger] follows(
            b[i],
            a[i],
            dep_type,
            update,
            preserve,
        ) by {
            assert(follows(before[i], after[i], dep_type, update, preserve));
        }
        lemma_section_follows(b, a, dep_type, update, preserve);
        assert(follows(before[n], after[n], dep_type, update, preserve));
        assert(section_deps(after, dep_type) =~= section_deps(before, dep_type).map_values(step));
    }
}

proof fn lemma_group_moves(doc: Tree, update: Dep, preserve: bool, dep_type: DepType)
    requires
        writable(doc, update),
    ensures
        group_deps(edited(doc, update, preserve), dep_type) == group_deps(
            doc,
            dep_type,
        ).map_values(|dep: Dep| moved(dep, update, preserve)),
{
    let step = |dep: Dep| moved(dep, update, preserve);
    let name = section_name(dep_type);
    let target = section_name(update.dep_type);
    if child(doc, name) is None {
        assert(group_deps(doc, dep_type).map_values(step) =~= seq![]);
    }
    match edit_of(doc, update, preserve) {
        Some((path, version)) => {
            let section = child(doc, target)->0;
            let before = entries_of(section);
            lemma_edit(doc, update, preserve);
            if name == target {
                let entry = choose|entry: Tree| #[trigger] is_edit(doc, update, preserve, entry);
                let after = put_entry(before, update.name, entry);
                lemma_key_index(before, update.name);
                let k = key_index(before, update.name);
                assert forall|i: int| 0 <= i < before.len() implies #[trigger] follows(
                    before[i],
                    after[i],
                    dep_type,
                    update,
                    preserve,
                ) by {
                    if i != k {
                        assert(before[i].0 != before[k].0);
                    }
                }
                lemma_section_follows(before, after, dep_type, update, preserve);
            } else if let Some(other) = child(doc, name) {
                lemma_other_section(entries_of(other), dep_type, update, preserve);
            }
        },
        None => {
            if let Some(other) = child(doc, name) {
                if name == target && update.latest is Some {
                    lemma_key_index(entries_of(other), update.name);
                    lemma_absent_entry(entries_of(other), dep_type, update, preserve);
                } else {
                    lemma_other_section(entries_of(other), dep_type, update, preserve);
                }
            }
        },
    }
}

proof fn lemma_other_section(
    entries: Seq<(Seq<char>, Tree)>,
    dep_type: DepType,
    update: Dep,
    preserve: bool,
)
    requires
        section_name(dep_type) != section_name(update.dep_type) || update.latest is None,
    ensures
        section_deps(entries, dep_type) == section_deps(entries, dep_type).map_values(
            |dep: Dep| moved(dep, update, preserve),
        ),
{
    lemma_section_follows(entries, entries, dep_type, update, preserve);
}

proof fn lemma_absent_entry(
    entries: Seq<(Seq<char>, Tree)>,
    dep_type: DepType,
    update: Dep,
    preserve: bool,
)
    requires
        key_index(entries, update.name) == entries.len(),
    ensures
        section_deps(entries, dep_type) == section_deps(entries, dep_type).map_values(
            |dep: Dep| moved(dep, update, preserve),
        ),
{
    lemma_key_index(entries, update.name);
    assert forall|i: int| 0 <= i < entries.len() implies #[trigger] follows(
        entries[i],
        entries[i],
        dep_type,
        update,
        preserve,
    ) by {
        assert(entries[i].0 != update.name);
    }
    lemma_section_follows(entries, entries, dep_type, update, preserve);
}

/// What stands for the dependency of an update once it is made.
spec fn is_edit(doc: Tree, update: Dep, preserve: bool, entry: Tree) -> bool {
    let section = child(doc, section_name(update.dep_type))->0;
    let new = child(edited(doc, update, preserve), section_name(update.dep_type));
    &&& asked_version(entry) == Some((edit_of(doc, update, preserve)->0).1)
    &&& new is Some
    &&& entries_of(new->0) == put_entry(entries_of(section), update.name, entry)
}

/// An update writes a version into the entry of its dependency; all other
/// sections stay.
proof fn lemma_edit(doc: Tree, update: Dep, preserve: bool)
    requires
        writable(doc, update),
        edit_of(doc, update, preserve) is Some,
    ensures
        exists|entry: Tree| #[trigger] is_edit(doc, update, preserve, entry),
        forall|other: Seq<char>|
            other != section_name(update.dep_type) ==> #[trigger] child(
                edited(doc, update, preserve),
                other,
            ) == child(doc, other),
        ({
            let section = child(doc, section_name(update.dep_type))->0;
            let entry = child(section, update.name)->0;
            (edit_of(doc, update, preserve)->0).1 == new_version(
                asked_version(entry)->0,
                update.latest->0,
                preserve,
            )
        }),
{
    let (path, version) = edit_of(doc, update, preserve)->0;
    let target = section_name(update.dep_type);
    let section = child(doc, target)->0;
    let entry = child(section, update.name)->0;
    let last = path.skip(2);
    assert(path =~= seq![Stride::Key(target)] + (seq![Stride::Key(update.name)] + last));
    lemma_put_child(doc, target, seq![Stride::Key(update.name)] + last, version);
    lemma_put_child(section, update.name, last, version);
    let new = put(entry, last, version);
    if entry is Text {
        assert(last =~= seq![]);
    } else {
        assert(last =~= seq![Stride::Key("version"@)] + seq![]);
        lemma_put_child(entry, "version"@, seq![], version);
    }
    assert(is_edit(doc, update, preserve, new));
}

proof fn lemma_stays_writable(doc: Tree, update: Dep, preserve: bool, later: Dep)
    requires
        writable(doc, update),
        writable(doc, later),
    ensures
        writable(edited(doc, update, preserve), later),
{
    if edit_of(doc, update, preserve) is Some {
        let target = section_name(update.dep_type);
        lemma_edit(doc, update, preserve);
        if section_name(later.dep_type) == target {
            let entry = choose|entry: Tree| #[trigger] is_edit(doc, update, preserve, entry);
            let before = entries_of(child(doc, target)->0);
            let after = put_entry(before, update.name, entry);
            lemma_key_index(before, update.name);
            lemma_key_index(before, later.name);
            lemma_key_index(after, later.name);
            let k = key_index(before, update.name);
            let m = key_index(after, later.name);
            assert forall|i: int, j: int| 0 <= i < j < after.len() implies #[trigger] after[i].0
                != #[trigger] after[j].0 by {
                assert(before[i].0 != before[j].0);
            }
            if m < after.len() && m != k {
                assert(before[m].0 == later.name);
                assert forall|i: int| 0 <= i < m implies (#[trigger] before[i]).0
                    != later.name by {
                    assert(before[i].0 != before[m].0);
                }
                lemma_key_index_is(before, later.name, m);
            }
        }
    }
}

proof fn lemma_all_stay_writable(doc: Tree, updates: Seq<Dep>, preserve: bool, later: Dep)
    requires
        forall|i: int| 0 <= i < updates.len() ==> writable(doc, #[trigger] updates[i]),
        writable(doc, later),
    ensures
        writable(updated(doc, updates, preserve), later),
    decreases updates.len(),
{
    if updates.len() > 0 {
        let init = updates.drop_last();
        let last = updates.last();
        assert forall|i: int| 0 <= i < init.len() implies writable(doc, #[trigger] init[i]) by {
            assert(init[i] == updates[i]);
        }
        assert(updates[updates.len() - 1] == last);
        lemma_all_stay_writable(doc, init, preserve, last);
        lemma_all_stay_writable(doc, init, preserve, later);
        lemma_stays_writable(updated(doc, init, preserve), last, preserve, later);
    }
}

/// A manifest with updates lists what it listed before, in the same order, each
/// dependency at the version of its update: a dependency that no update is of stays as
/// it is.
pub proof fn law_updated_manifest_lists_the_updates(doc: Tree, updates: Seq<Dep>, preserve: bool)
    requires
        forall|i: int| 0 <= i < updates.len() ==> writable(doc, #[trigger] updates[i]),
    ensures
        listed(updated(doc, updates, preserve)) == moved_all(listed(doc), updates, preserve),
    decreases updates.len(),
{
    let items = listed(doc);
    if updates.len() == 0 {
        assert(moved_all(items, updates, preserve) =~= items);
    } else {
        let init = updates.drop_last();
        let last = updates.last();
        assert forall|i: int| 0 <= i < init.len() implies writable(doc, #[trigger] init[i]) by {
            assert(init[i] == updates[i]);
        }
        assert(updates[updates.len() - 1] == last);
        law_updated_manifest_lists_the_updates(doc, init, preserve);
        lemma_all_stay_writable(doc, init, preserve, last);
        let before = updated(doc, init, preserve);
        let step = |dep: Dep| moved(dep, last, preserve);
        lemma_group_moves(before, last, preserve, DepType::Normal);
        lemma_group_moves(before, last, preserve, DepType::Dev);
        lemma_group_moves(before, last, preserve, DepType::Build);
        assert(listed(edited(before, last, preserve)) =~= listed(before).map_values(step));
        assert(moved_all(items, updates, preserve) =~= moved_all(items, init, preserve).map_values(
            step,
        ));
    }
}

/// No section of dependencies names one twice.
pub open spec fn sections_keyed(t: Tree) -> bool {
    forall|dep_type: DepType|
        match child(t, #[trigger] section_name(dep_type)) {
            Some(section) => keyed(entries_of(section)),
            None => true,
        }
}

/// The entry declares the dependency.
pub open spec fn declares(entry: (Seq<char>, Tree), dep: Dep) -> bool {
    asked_version(entry.1) == Some(dep.current) && dep == Dep::fresh(
        entry.0,
        dep.current,
        dep.dep_type,
    )
}

proof fn lemma_declared(entries: Seq<(Seq<char>, Tree)>, dep_type: DepType, dep: Dep) -> (j: int)
    requires
        section_deps(entries, dep_type).contains(dep),
    ensures
        0 <= j < entries.len(),
        declares(entries[j], dep),
        dep.dep_type == dep_type,
    decreases entries.len(),
{
    let before = section_deps(entries.drop_last(), dep_type);
    if before.contains(dep) {
        let j = lemma_declared(entries.drop_last(), dep_type, dep);
        assert(entries.drop_last()[j] == entries[j]);
        j
    } else {
        let all = section_deps(entries, dep_type);
        let i = choose|i: int| 0 <= i < all.len() && all[i] == dep;
        if i < before.len() {
            assert(before[i] == dep);
        }
        entries.len() - 1
    }
}

proof fn lemma_is_listed(
    entries: Seq<(Seq<char>, Tree)>,
    dep_type: DepType,
    dep: Dep,
    j: int,
)
    requires
        0 <= j < entries.len(),
        declares(entries[j], dep),
        dep.dep_type == dep_type,
    ensures
        section_deps(entries, dep_type).contains(dep),
    decreases entries.len(),
{
    let all = section_deps(entries, dep_type);
    let before = section_deps(entries.drop_last(), dep_type);
    if j == entries.len() - 1 {
        assert(all.last() == dep);
        assert(all[all.len() - 1] == dep);
    } else {
        assert(entries.drop_last()[j] == entries[j]);
        lemma_is_listed(entries.drop_last(), dep_type, dep, j);
        let i = choose|i: int| 0 <= i < before.len() && before[i] == dep;
        assert(all[i] == dep);
    }
}

/// What a group of the tree lists, the same group of a tree with the same texts
/// lists.
proof fn lemma_group_is_found(s: Seq<char>, t: Tree, dep_type: DepType, dep: Dep)
    requires
        toml_finds(s, t),
        toml_tree(s) is Some,
        undated(t),
        sections_keyed(t),
        group_deps(t, dep_type).contains(dep),
    ensures
        group_deps(toml_tree(s)->0, dep_type).contains(dep),
{
    let name = section_name(dep_type);
    let entries = entries_of(child(t, name)->0);
    let j = lemma_declared(entries, dep_type, dep);
    assert(keyed(entries));
    assert forall|i: int| 0 <= i < j implies (#[trigger] entries[i]).0 != dep.name by {
        assert(entries[i].0 != entries[j].0);
    }
    lemma_key_index_is(entries, dep.name, j);
    let entry = entries[j].1;
    let read = toml_tree(s)->0;
    let short = seq![Stride::Key(name), Stride::Key(dep.name)];
    let long = short.push(Stride::Key("version"@));
    lemma_two_keys(t, name, dep.name);
    lemma_two_keys(read, name, dep.name);
    lemma_at_push(t, short, Stride::Key("version"@));
    lemma_at_push(read, short, Stride::Key("version"@));
    assert(at(t, short) == Some(entry));
    if entry is Text {
        assert(text_at(t, short) == Some(dep.current));
        assert(text_at(read, short) == text_at(t, short));
    } else {
        assert(text_at(t, long) == Some(dep.current));
        assert(text_at(read, long) == text_at(t, long));
    }
    let found = entries_of(child(read, name)->0);
    lemma_key_index(found, dep.name);
    lemma_is_listed(found, dep_type, dep, key_index(found, dep.name));
}

proof fn lemma_two_keys(t: Tree, section: Seq<char>, name: Seq<char>)
    ensures
        at(t, seq![Stride::Key(section), Stride::Key(name)]) == match child(t, section) {
            Some(table) => child(table, name),
            None => None,
        },
{
    let path = seq![Stride::Key(section), Stride::Key(name)];
    let one = seq![Stride::Key(section)];
    assert(path =~= one.push(Stride::Key(name)));
    lemma_at_push(t, one, Stride::Key(name));
    assert(one =~= seq![].push(Stride::Key(section)));
    lemma_at_push(t, seq![], Stride::Key(section));
}

/// A text that says what a manifest holds lists each dependency of that
/// manifest, where it can be read for a listing.
pub proof fn law_written_manifest_lists_all(s: Seq<char>, t: Tree, dep: Dep)
    requires
        says(s, t),
        toml_tree(s) is Some,
        undated(t),
        sections_keyed(t),
        listed(t).contains(dep),
    ensures
        listed(toml_tree(s)->0).contains(dep),
{
    let read = toml_tree(s)->0;
    let (a, b, c) = (
        group_deps(t, DepType::Normal),
        group_deps(t, DepType::Dev),
        group_deps(t, DepType::Build),
    );
    let (x, y, z) = (
        group_deps(read, DepType::Normal),
        group_deps(read, DepType::Dev),
        group_deps(read, DepType::Build),
    );
    let all = listed(t);
    let out = listed(read);
    let i = choose|i: int| 0 <= i < all.len() && all[i] == dep;
    if i < a.len() {
        assert(a[i] == dep);
        lemma_group_is_found(s, t, DepType::Normal, dep);
        let k = choose|k: int| 0 <= k < x.len() && x[k] == dep;
        assert(out[k] == dep);
    } else if i < a.len() + b.len() {
        assert(b[i - a.len()] == dep);
        lemma_group_is_found(s, t, DepType::Dev, dep);
        let k = choose|k: int| 0 <= k < y.len() && y[k] == dep;
        assert(out[x.len() + k] == dep);
    } else {
        assert(c[i - a.len() - b.len()] == dep);
        lemma_group_is_found(s, t, DepType::Build, dep);
        let k = choose|k: int| 0 <= k < z.len() && z[k] == dep;
        assert(out[x.len() + y.len() + k] == dep);
    }
}

proof fn lemma_stays_keyed(doc: Tree, updates: Seq<Dep>, preserve: bool)
    requires
        sections_keyed(doc),
        forall|i: int| 0 <= i < updates.len() ==> writable(doc, #[trigger] updates[i]),
    ensures
        sections_keyed(updated(doc, updates, preserve)),
    decreases updates.len(),
{
    if updates.len() > 0 {
        let init = updates.drop_last();
        let last = updates.last();
        assert forall|i: int| 0 <= i < init.len() implies writable(doc, #[trigger] init[i]) by {
            assert(init[i] == updates[i]);
        }
        assert(updates[updates.len() - 1] == last);
        lemma_stays_keyed(doc, init, preserve);
        lemma_all_stay_writable(doc, init, preserve, last);
        let before = updated(doc, init, preserve);
        let target = section_name(last.dep_type);
        if edit_of(before, last, preserve) is Some {
            lemma_edit(before, last, preserve);
            let entry = choose|entry: Tree| #[trigger] is_edit(before, last, preserve, entry);
            let entries = entries_of(child(before, target)->0);
            let after = put_entry(entries, last.name, entry);
            lemma_key_index(entries, last.name);
            assert forall|i: int, j: int| 0 <= i < j < after.len() implies #[trigger] after[i].0
                != #[trigger] after[j].0 by {
                assert(entries[i].0 != entries[j].0);
            }
            assert(keyed(after));
        }
    }
}

/// The text of a manifest with updates lists, where it can be read for a listing,
/// each dependency that was listed before, at the version of its update.
pub proof fn law_written_updates_are_listed(
    s: Seq<char>,
    doc: Tree,
    updates: Seq<Dep>,
    preserve: bool,
    dep: Dep,
)
    requires
        sections_keyed(doc),
        forall|i: int| 0 <= i < updates.len() ==> writable(doc, #[trigger] updates[i]),
        says(s, updated(doc, updates, preserve)),
        toml_tree(s) is Some,
        undated(updated(doc, updates, preserve)),
        listed(doc).contains(dep),
    ensures
        listed(toml_tree(s)->0).contains(moved_on(dep, updates, preserve)),
{
    let t = updated(doc, updates, preserve);
    let before = listed(doc);
    law_updated_manifest_lists_the_updates(doc, updates, preserve);
    lemma_stays_keyed(doc, updates, preserve);
    let i = choose|i: int| 0 <= i < before.len() && before[i] == dep;
    assert(listed(t)[i] == moved_on(dep, updates, preserve));
    law_written_manifest_lists_all(s, t, moved_on(dep, updates, preserve));
}

/// What is written ends with the latest version. With ranges preserved, what stands
/// before it is what stood before the first digit of the old text, where that has a
/// digit; else nothing stands before it.
pub proof fn law_latest_version_is_written(old: Seq<char>, latest: Seq<char>, preserve: bool)
    ensures
        ({
            let r = new_version(old, latest, preserve);
            let digits = exists|i: int| 0 <= i < old.len() && '0' <= #[trigger] old[i] && old[i] <= '9';
            &&& preserve && digits ==> is_behind_prefix(r, old, latest)
            &&& !preserve || !digits ==> r == latest
        }),
{
    chars::lemma_leading(old, chars::not_digit());
    lemma_behind_prefix(old, latest);
    let n = chars::leading(old, chars::not_digit()) as int;
    if n < old.len() {
        assert(!chars::not_digit()(old[n]));
        assert('0' <= old[n] && old[n] <= '9');
    } else {
        assert forall|i: int| 0 <= i < old.len() implies !('0' <= #[trigger] old[i] && old[i]
            <= '9') by {
            assert(chars::not_digit()(old[i]));
        }
    }
}

/// The section asks for the dependency at a version: by a text, or by the text under
/// `version`.
pub open spec fn is_entry(doc: Tree, section: Seq<char>, dep_type: DepType, d: Dep) -> bool {
    &&& child(doc, section) is Some
    &&& exists|t: Tree| #[trigger]
        entries_of(child(doc, section)->0).contains((d.name, t)) && (t == Tree::Text(d.current) || (
        !(t is Text) && child(t, "version"@) == Some(Tree::Text(d.current))))
    &&& d.dep_type == dep_type
    &&& d.latest is None
    &&& !d.satisfied
    &&& !d.check_failed
    &&& d.peers.len() == 0
    &&& d.held_back.len() == 0
}

proof fn lemma_group_listed(doc: Tree, dep_type: DepType, d: Dep)
    ensures
        group_deps(doc, dep_type).contains(d) <==> is_entry(
            doc,
            section_name(dep_type),
            dep_type,
            d,
        ),
{
    if d.peers.len() == 0 && d.held_back.len() == 0 {
        assert(d.peers =~= seq![]);
        assert(d.held_back =~= seq![]);
    }
    if let Some(section) = child(doc, section_name(dep_type)) {
        let entries = entries_of(section);
        if group_deps(doc, dep_type).contains(d) {
            let j = lemma_declared(entries, dep_type, d);
            let t = entries[j].1;
            assert(entries[j] == (d.name, t));
            assert(entries.contains((d.name, t)));
        }
        if is_entry(doc, section_name(dep_type), dep_type, d) {
            let t = choose|t: Tree| #[trigger]
                entries.contains((d.name, t)) && (t == Tree::Text(d.current) || (!(t is Text)
                    && child(t, "version"@) == Some(Tree::Text(d.current))));
            let j = choose|j: int| 0 <= j < entries.len() && entries[j] == (d.name, t);
            assert(d =~= Dep::fresh(d.name, d.current, dep_type));
            lemma_is_listed(entries, dep_type, d, j);
        }
    }
}

/// The three sections of a manifest list what they ask for, each in its group, and
/// nothing else is listed.
pub proof fn law_listed_dependencies(doc: Tree)
    ensures
        forall|d: Dep| #[trigger] listed(doc).contains(d) <==> {
            ||| is_entry(doc, "dependencies"@, DepType::Normal, d)
            ||| is_entry(doc, "dev-dependencies"@, DepType::Dev, d)
            ||| is_entry(doc, "build-dependencies"@, DepType::Build, d)
        },
{
    assert forall|d: Dep| #[trigger] listed(doc).contains(d) <==> {
        ||| is_entry(doc, "dependencies"@, DepType::Normal, d)
        ||| is_entry(doc, "dev-dependencies"@, DepType::Dev, d)
        ||| is_entry(doc, "build-dependencies"@, DepType::Build, d)
    } by {
        lemma_group_listed(doc, DepType::Normal, d);
        lemma_group_listed(doc, DepType::Dev, d);
        lemma_group_listed(doc, DepType::Build, d);
        lemma_three(
            group_deps(doc, DepType::Normal),
            group_deps(doc, DepType::Dev),
            group_deps(doc, DepType::Build),
            d,
        );
    }
}

/// An update writes to the entry of its dependency in the section of its group, or
/// to that entry's `version`: the latest version, behind the old operator where
/// ranges are preserved. Without an entry or a newer version it writes nothing.
pub proof fn law_update_writes(doc: Tree, dep: Dep, preserve: bool)
    ensures
        ({
            let section = if dep.dep_type == DepType::Dev {
                "dev-dependencies"@
            } else if dep.dep_type == DepType::Build {
                "build-dependencies"@
            } else {
                "dependencies"@
            };
            let short = seq![Stride::Key(section), Stride::Key(dep.name)];
            let long = short.push(Stride::Key("version"@));
            let new = updated(doc, seq![dep], preserve);
            &&& dep.latest is None || at(doc, short) is None ==> new == doc
            &&& dep.latest is Some && text_at(doc, short) is Some ==> text_at(new, short) == Some(
                new_version(text_at(doc, short)->0, dep.latest->0, preserve),
            )
            &&& dep.latest is Some && text_at(doc, long) is Some ==> text_at(new, long) == Some(
                new_version(text_at(doc, long)->0, dep.latest->0, preserve),
            )
        }),
{
    let one = seq![dep];
    assert(one.drop_last() =~= seq![]);
    assert(updated(doc, one.drop_last(), preserve) == doc);
    assert(updated(doc, one, preserve) == edited(doc, dep, preserve));
    let section = section_name(dep.dep_type);
    let short = seq![Stride::Key(section), Stride::Key(dep.name)];
    let long = short.push(Stride::Key("version"@));
    lemma_two_keys(doc, section, dep.name);
    lemma_at_push(doc, short, Stride::Key("version"@));
    if dep.latest is Some && text_at(doc, short) is Some {
        lemma_reaches(doc, short);
        law_put(doc, short, new_version(text_at(doc, short)->0, dep.latest->0, preserve));
    }
    if dep.latest is Some && text_at(doc, long) is Some {
        lemma_reaches(doc, long);
        law_put(doc, long, new_version(text_at(doc, long)->0, dep.latest->0, preserve));
    }
}

/// After a lookup a dependency has the version without its build metadata. It is up
/// to date where its requirement admits that version, or, where one of the two
/// cannot be read, where they are the same text.
pub proof fn law_lookup(dep: Dep, published: Seq<char>, admitted: Option<bool>)
    ensures
        ({
            let r = resolved(dep, usable(Some(published)), admitted);
            let latest = r.latest->0;
            &&& r.latest is Some
            &&& latest.len() <= published.len()
            &&& latest == published.take(latest.len() as int)
            &&& forall|i: int| 0 <= i < latest.len() ==> #[trigger] latest[i] != '+'
            &&& latest.len() < published.len() ==> published[latest.len() as int] == '+'
            &&& admitted is Some ==> r.satisfied == admitted->0
            &&& admitted is None ==> (r.satisfied <==> latest == dep.current)
            &&& r == Dep { latest: r.latest, satisfied: r.satisfied, ..dep }
            &&& resolved(dep, usable(None), admitted) == (Dep { check_failed: true, ..dep })
        }),
{
    let r = resolved(dep, usable(Some(published)), admitted);
    let latest = r.latest->0;
    chars::lemma_leading(published, chars::is_not('+'));
    assert forall|i: int| 0 <= i < latest.len() implies #[trigger] latest[i] != '+' by {
        assert(chars::is_not('+')(published[i]));
    }
    if latest.len() < published.len() {
        assert(!chars::is_not('+')(published[latest.len() as int]));
    }
}

/// A lookup of a version with build metadata gives the version without it, and whether
/// the requirement admits that.
pub proof fn law_looked_up(dep: Dep, version: Seq<char>, build: Seq<char>)
    requires
        !version.contains('+'),
    ensures
        ({
            let r = looked_up(dep, Some(version + seq!['+'] + build));
            let plain = looked_up(dep, Some(version));
            &&& r == plain
            &&& r.latest == Some(version)
            &&& r.satisfied == match semver_admits(dep.current, version) {
                Some(answer) => answer,
                None => version == dep.current,
            }
            &&& looked_up(dep, None) == (Dep { check_failed: true, ..dep })
        }),
{
    chars::lemma_first(version, '+', build);
    chars::lemma_before_all(version, '+');
}

/// The dependencies of a section are listed in its order, and those of the three
/// sections one section after the other.
pub proof fn law_listed_in_order(
    doc: Tree,
    a: Seq<(Seq<char>, Tree)>,
    b: Seq<(Seq<char>, Tree)>,
    dep_type: DepType,
)
    ensures
        section_deps(a + b, dep_type) == section_deps(a, dep_type) + section_deps(b, dep_type),
        forall|i: int, j: int|
            0 <= i < j < listed(doc).len() && (#[trigger] listed(doc)[j]).dep_type
                == DepType::Normal ==> (#[trigger] listed(doc)[i]).dep_type == DepType::Normal,
        forall|i: int, j: int|
            0 <= i < j < listed(doc).len() && (#[trigger] listed(doc)[i]).dep_type
                == DepType::Build ==> (#[trigger] listed(doc)[j]).dep_type == DepType::Build,
    decreases b.len(),
{
    if b.len() == 0 {
        assert(a + b =~= a);
        assert(section_deps(a, dep_type) + section_deps(b, dep_type) =~= section_deps(a, dep_type));
    } else {
        law_listed_in_order(doc, a, b.drop_last(), dep_type);
        assert((a + b).drop_last() =~= a + b.drop_last());
        assert(section_deps(a + b, dep_type) =~= section_deps(a, dep_type) + section_deps(
            b,
            dep_type,
        ));
    }
    lemma_one_type(doc, DepType::Normal);
    lemma_one_type(doc, DepType::Dev);
    lemma_one_type(doc, DepType::Build);
    let x = group_deps(doc, DepType::Normal);
    let y = group_deps(doc, DepType::Dev);
    let z = group_deps(doc, DepType::Build);
    assert forall|i: int| 0 <= i < listed(doc).len() implies (#[trigger] listed(doc)[i]).dep_type
        == (if i < x.len() {
        DepType::Normal
    } else if i < x.len() + y.len() {
        DepType::Dev
    } else {
        DepType::Build
    }) by {
        if i < x.len() {
            assert(listed(doc)[i] == x[i]);
        } else if i < x.len() + y.len() {
            assert(listed(doc)[i] == y[i - x.len()]);
        } else {
            assert(listed(doc)[i] == z[i - x.len() - y.len()]);
        }
    }
}

proof fn lemma_one_type(doc: Tree, dep_type: DepType)
    ensures
        forall|i: int|
            0 <= i < group_deps(doc, dep_type).len() ==> (#[trigger] group_deps(
                doc,
                dep_type,
            )[i]).dep_type == dep_type,
{
    if let Some(section) = child(doc, section_name(dep_type)) {
        lemma_section_type(entries_of(section), dep_type);
    }
}

proof fn lemma_section_type(entries: Seq<(Seq<char>, Tree)>, dep_type: DepType)
    ensures
        forall|i: int|
            0 <= i < section_deps(entries, dep_type).len() ==> (#[trigger] section_deps(
                entries,
                dep_type,
            )[i]).dep_type == dep_type,
    decreases entries.len(),
{
    if entries.len() > 0 {
        lemma_section_type(entries.drop_last(), dep_type);
    }
}

/// A table without a version gets the latest one. An inline table without a version and
/// an entry of another form stay as they are.
pub proof fn law_entries_without_a_version(doc: Tree, dep: Dep, preserve: bool)
    ensures
        ({
            let section = if dep.dep_type == DepType::Dev {
                "dev-dependencies"@
            } else if dep.dep_type == DepType::Build {
                "build-dependencies"@
            } else {
                "dependencies"@
            };
            let short = seq![Stride::Key(section), Stride::Key(dep.name)];
            let long = short.push(Stride::Key("version"@));
            let new = updated(doc, seq![dep], preserve);
            &&& at(doc, short) matches Some(Tree::Inline(inner)) ==> at(doc, long) is None ==> new
                == doc
            &&& at(doc, short) matches Some(Tree::List(items)) ==> new == doc
            &&& at(doc, short) matches Some(Tree::Other(text)) ==> new == doc
            &&& at(doc, short) matches Some(Tree::Table(inner)) ==> dep.latest is Some && at(
                doc,
                long,
            ) is None ==> text_at(new, long) == dep.latest
        }),
{
    let one = seq![dep];
    assert(one.drop_last() =~= seq![]);
    assert(updated(doc, one.drop_last(), preserve) == doc);
    assert(updated(doc, one, preserve) == edited(doc, dep, preserve));
    let section = section_name(dep.dep_type);
    let short = seq![Stride::Key(section), Stride::Key(dep.name)];
    let long = short.push(Stride::Key("version"@));
    lemma_two_keys(doc, section, dep.name);
    lemma_at_push(doc, short, Stride::Key("version"@));
    if let Some(Tree::Table(inner)) = at(doc, short) {
        if dep.latest is Some && at(doc, long) is None {
            let none = Seq::<char>::empty();
            let w = new_version(none, dep.latest->0, preserve);
            law_latest_version_is_written(none, dep.latest->0, preserve);
            assert(w == dep.latest->0);
            lemma_reaches_key(doc, short, "version"@);
            law_put(doc, long, w);
        }
    }
}

/// A key of a table can be written to, whether it is there or not.
proof fn lemma_reaches_key(t: Tree, path: Seq<Stride>, key: Seq<char>)
    requires
        at(t, path) is Some,
        at(t, path)->0 is Table,
    ensures
        reachable(t, path.push(Stride::Key(key))),
    decreases path.len(),
{
    let whole = path.push(Stride::Key(key));
    reveal_with_fuel(reachable, 2);
    if path.len() > 0 {
        let next = step_to(t, path[0])->0;
        lemma_reaches_key(next, path.skip(1), key);
        assert(whole.skip(1) =~= path.skip(1).push(Stride::Key(key)));
        assert(whole[0] == path[0]);
    } else {
        assert(whole =~= seq![Stride::Key(key)]);
    }
}

} // verus!
