//! What a `package.json` lists, and what lookups, peers and updates do to it.
use vstd::prelude::*;
use crate::chars;
use crate::documents::{json_says, json_tree};
use crate::plugin::{
    Conflict, Dep, DepType, Dir, is_behind_prefix, lemma_behind_prefix, lemma_filtered,
};
use crate::plugins::cargo::text_or_empty;
use crate::plugins::npm::{
    JsPackageManager, Release, after_peers, conflicts_from, conflicts_with, edit_of, edited,
    group_deps, held_back, is_met, last_named, listed, looked_up, new_version, peer_met, required,
    resolved, same_entry, section_deps, section_name, updated,
};
use crate::ranges::npm_admits;
use crate::tree::{
    Stride, Tree, alike, at, child, entries_of, key_index, keyed, law_put, lemma_alike_child,
    lemma_at_push, lemma_key_index, lemma_key_index_is, lemma_put_child, put, put_entry, reachable,
    step_to, text_at,
};

verus! {

/// The section that an update writes to, where the manifest has it, names each
/// package once, and the package of the update with a range that is a text.
pub open spec fn writable(doc: Tree, update: Dep) -> bool {
    match section_name(update.dep_type) {
        Some(name) => match child(doc, name) {
            Some(section) => {
                &&& keyed(entries_of(section))
                &&& match child(section, update.name) {
                    Some(entry) => entry is Text,
                    None => true,
                }
            },
            None => true,
        },
        None => true,
    }
}

/// A package after an update: at the new version where the update is of its entry.
pub open spec fn moved(dep: Dep, update: Dep, preserve: bool) -> Dep {
    match update.latest {
        Some(latest) => if same_entry(dep, update) {
            Dep { current: new_version(dep.current, latest, preserve), ..dep }
        } else {
            dep
        },
        None => dep,
    }
}

/// A package after the updates.
pub open spec fn moved_on(dep: Dep, updates: Seq<Dep>, preserve: bool) -> Dep
    decreases updates.len(),
{
    if updates.len() == 0 {
        dep
    } else {
        moved(moved_on(dep, updates.drop_last(), preserve), updates.last(), preserve)
    }
}

/// The packages after the updates.
pub open spec fn moved_all(items: Seq<Dep>, updates: Seq<Dep>, preserve: bool) -> Seq<Dep> {
    items.map_values(|dep: Dep| moved_on(dep, updates, preserve))
}

/// The entry says of its package, after an update, what the other entry says.
spec fn follows(
    before: (Seq<char>, Tree),
    after: (Seq<char>, Tree),
    dep_type: DepType,
    update: Dep,
    preserve: bool,
) -> bool {
    &&& before.0 == after.0
    &&& match (before.1, after.1) {
        (Tree::Text(x), Tree::Text(y)) => moved(
            Dep::fresh(before.0, x, dep_type),
            update,
            preserve,
        ) == Dep::fresh(after.0, y, dep_type),
        (Tree::Text(_), _) => false,
        (_, Tree::Text(_)) => false,
        _ => true,
    }
}

proof fn lemma_section_follows(
    before: Seq<(Seq<char>, Tree)>,
    after: Seq<(Seq<char>, Tree)>,
    dep_type: DepType,
    update: Dep,
    preserve: bool,
)
    requires
        before.len() == after.len(),
        forall|i: int|
            0 <= i < before.len() ==> #[trigger] follows(
                before[i],
                after[i],
                dep_type,
                update,
                preserve,
            ),
    ensures
        section_deps(after, dep_type) == section_deps(before, dep_type).map_values(
            |dep: Dep| moved(dep, update, preserve),
        ),
    decreases before.len(),
{
    let step = |dep: Dep| moved(dep, update, preserve);
    if before.len() == 0 {
        assert(section_deps(after, dep_type) =~= section_deps(before, dep_type).map_values(step));
    } else {
        let n = before.len() - 1;
        let (b, a) = (before.drop_last(), after.drop_last());
        assert forall|i: int| 0 <= i < b.len() implies #[trigger] follows(
            b[i],
            a[i],
            dep_type,
            update,
            preserve,
        ) by {
            assert(follows(before[i], after[i], dep_type, update, preserve));
        }
        lemma_section_follows(b, a, dep_type, update, preserve);
        assert(follows(before[n], after[n], dep_type, update, preserve));
        assert(section_deps(after, dep_type) =~= section_deps(before, dep_type).map_values(step));
    }
}

proof fn lemma_group_moves(doc: Tree, update: Dep, preserve: bool, dep_type: DepType)
    requires
        writable(doc, update),
    ensures
        group_deps(edited(doc, update, preserve), dep_type) == group_deps(
            doc,
            dep_type,
        ).map_values(|dep: Dep| moved(dep, update, preserve)),
{
    let new = edited(doc, update, preserve);
    let step = |dep: Dep| moved(dep, update, preserve);
    let same = section_name(dep_type) == section_name(update.dep_type);
    if section_name(dep_type) is None || child(doc, section_name(dep_type)->0) is None {
        assert(group_deps(doc, dep_type).map_values(step) =~= seq![]);
    }
    if let Some(name) = section_name(dep_type) {
        match edit_of(doc, update, preserve) {
            Some((path, version)) => {
                let target = section_name(update.dep_type)->0;
                let section = child(doc, target)->0;
                lemma_put_two(doc, target, update.name, version);
                assert(path =~= seq![Stride::Key(target), Stride::Key(update.name)]);
                if same {
                    let before = entries_of(section);
                    let after = put_entry(before, update.name, Tree::Text(version));
                    lemma_key_index(before, update.name);
                    let k = key_index(before, update.name);
                    assert(before[k].1 is Text);
                    assert forall|i: int| 0 <= i < before.len() implies #[trigger] follows(
                        before[i],
                        after[i],
                        dep_type,
                        update,
                        preserve,
                    ) by {
                        if i != k {
                            assert(before[i].0 != before[k].0);
                        }
                    }
                    lemma_section_follows(before, after, dep_type, update, preserve);
                } else if let Some(other) = child(doc, name) {
                    lemma_other_section(entries_of(other), dep_type, update, preserve);
                }
            },
            None => {
                if let Some(other) = child(doc, name) {
                    if same && update.latest is Some {
                        lemma_key_index(entries_of(other), update.name);
                        lemma_absent_entry(entries_of(other), dep_type, update, preserve);
                    } else {
                        lemma_other_section(entries_of(other), dep_type, update, preserve);
                    }
                }
            },
        }
    }
}

proof fn lemma_other_section(
    entries: Seq<(Seq<char>, Tree)>,
    dep_type: DepType,
    update: Dep,
    preserve: bool,
)
    requires
        section_name(dep_type) != section_name(update.dep_type) || update.latest is None,
    ensures
        section_deps(entries, dep_type) == section_deps(entries, dep_type).map_values(
            |dep: Dep| moved(dep, update, preserve),
        ),
{
    lemma_section_follows(entries, entries, dep_type, update, preserve);
}

proof fn lemma_absent_entry(
    entries: Seq<(Seq<char>, Tree)>,
    dep_type: DepType,
    update: Dep,
    preserve: bool,
)
    requires
        key_index(entries, update.name) == entries.len(),
    ensures
        section_deps(entries, dep_type) == section_deps(entries, dep_type).map_values(
            |dep: Dep| moved(dep, update, preserve),
        ),
{
    lemma_key_index(entries, update.name);
    assert forall|i: int| 0 <= i < entries.len() implies #[trigger] follows(
        entries[i],
        entries[i],
        dep_type,
        update,
        preserve,
    ) by {
        assert(entries[i].0 != update.name);
    }
    lemma_section_follows(entries, entries, dep_type, update, preserve);
}

/// A text that was put under two keys: the section has the new entries, and all
/// other sections stay.
proof fn lemma_put_two(doc: Tree, section: Seq<char>, name: Seq<char>, s: Seq<char>)
    requires
        child(doc, section) is Some,
        child(child(doc, section)->0, name) is Some,
    ensures
        ({
            let new = put(doc, seq![Stride::Key(section), Stride::Key(name)], s);
            &&& child(new, section) is Some
            &&& entries_of(child(new, section)->0) == put_entry(
                entries_of(child(doc, section)->0),
                name,
                Tree::Text(s),
            )
            &&& forall|other: Seq<char>|
                other != section ==> #[trigger] child(new, other) == child(doc, other)
        }),
{
    let path = seq![Stride::Key(section), Stride::Key(name)];
    let rest = seq![Stride::Key(name)];
    let table = child(doc, section)->0;
    assert(path =~= seq![Stride::Key(section)] + rest);
    assert(rest =~= seq![Stride::Key(name)] + seq![]);
    lemma_put_child(doc, section, rest, s);
    lemma_put_child(table, name, seq![], s);
}

proof fn lemma_stays_writable(doc: Tree, update: Dep, preserve: bool, later: Dep)
    requires
        writable(doc, update),
        writable(doc, later),
    ensures
        writable(edited(doc, update, preserve), later),
{
    if let (Some((path, version)), Some(name)) = (
        edit_of(doc, update, preserve),
        section_name(later.dep_type),
    ) {
        let target = section_name(update.dep_type)->0;
        let section = child(doc, target)->0;
        lemma_put_two(doc, target, update.name, version);
        assert(path =~= seq![Stride::Key(target), Stride::Key(update.name)]);
        if name == target {
            let before = entries_of(section);
            let after = put_entry(before, update.name, Tree::Text(version));
            lemma_key_index(before, update.name);
            lemma_key_index(before, later.name);
            lemma_key_index(after, later.name);
            let k = key_index(before, update.name);
            let m = key_index(after, later.name);
            assert forall|i: int, j: int| 0 <= i < j < after.len() implies #[trigger] after[i].0
                != #[trigger] after[j].0 by {
                assert(before[i].0 != before[j].0);
            }
            if m < after.len() && m != k {
                assert(before[m].0 == later.name);
                assert forall|i: int| 0 <= i < m implies (#[trigger] before[i]).0
                    != later.name by {
                    assert(before[i].0 != before[m].0);
                }
                lemma_key_index_is(before, later.name, m);
                assert(after[m].1 is Text);
            }
        }
    }
}

proof fn lemma_all_stay_writable(doc: Tree, updates: Seq<Dep>, preserve: bool, later: Dep)
    requires
        forall|i: int| 0 <= i < updates.len() ==> writable(doc, #[trigger] updates[i]),
        writable(doc, later),
    ensures
        writable(updated(doc, updates, preserve), later),
    decreases updates.len(),
{
    if updates.len() > 0 {
        let init = updates.drop_last();
        let last = updates.last();
        assert forall|i: int| 0 <= i < init.len() implies writable(doc, #[trigger] init[i]) by {
            assert(init[i] == updates[i]);
        }
        assert(updates[updates.len() - 1] == last);
        lemma_all_stay_writable(doc, init, preserve, last);
        lemma_all_stay_writable(doc, init, preserve, later);
        lemma_stays_writable(updated(doc, init, preserve), last, preserve, later);
    }
}

/// A manifest with updates lists what it listed before, in the same order, each
/// package at the version of its update: a package that no update is of stays as
/// it is.
pub proof fn law_updated_manifest_lists_the_updates(doc: Tree, updates: Seq<Dep>, preserve: bool)
    requires
        forall|i: int| 0 <= i < updates.len() ==> writable(doc, #[trigger] updates[i]),
    ensures
        listed(updated(doc, updates, preserve)) == moved_all(listed(doc), updates, preserve),
    decreases updates.len(),
{
    let items = listed(doc);
    if updates.len() == 0 {
        assert(moved_all(items, updates, preserve) =~= items);
    } else {
        let init = updates.drop_last();
        let last = updates.last();
        assert forall|i: int| 0 <= i < init.len() implies writable(doc, #[trigger] init[i]) by {
            assert(init[i] == updates[i]);
        }
        assert(updates[updates.len() - 1] == last);
        law_updated_manifest_lists_the_updates(doc, init, preserve);
        lemma_all_stay_writable(doc, init, preserve, last);
        let before = updated(doc, init, preserve);
        let step = |dep: Dep| moved(dep, last, preserve);
        lemma_group_moves(before, last, preserve, DepType::Normal);
        lemma_group_moves(before, last, preserve, DepType::Dev);
        lemma_group_moves(before, last, preserve, DepType::Optional);
        assert(listed(edited(before, last, preserve)) =~= listed(before).map_values(step));
        assert(moved_all(items, updates, preserve) =~= moved_all(items, init, preserve).map_values(
            step,
        ));
    }
}

/// The text of a manifest with updates lists what was listed before, each package
/// at the version of its update.
pub proof fn law_written_updates_are_listed(
    s: Seq<char>,
    doc: Tree,
    updates: Seq<Dep>,
    preserve: bool,
)
    requires
        forall|i: int| 0 <= i < updates.len() ==> writable(doc, #[trigger] updates[i]),
        json_says(s, updated(doc, updates, preserve)),
    ensures
        json_tree(s) is Some,
        listed(json_tree(s)->0) == moved_all(listed(doc), updates, preserve),
{
    law_updated_manifest_lists_the_updates(doc, updates, preserve);
    let read = json_tree(s)->0;
    let t = updated(doc, updates, preserve);
    lemma_alike_group(read, t, DepType::Normal);
    lemma_alike_group(read, t, DepType::Dev);
    lemma_alike_group(read, t, DepType::Optional);
}

proof fn lemma_alike_section(
    a: Seq<(Seq<char>, Tree)>,
    b: Seq<(Seq<char>, Tree)>,
    dep_type: DepType,
)
    requires
        a.len() == b.len(),
        forall|i: int|
            0 <= i < a.len() ==> (#[trigger] a[i]).0 == b[i].0 && alike(a[i].1, b[i].1),
    ensures
        section_deps(a, dep_type) == section_deps(b, dep_type),
    decreases a.len(),
{
    if a.len() > 0 {
        let (x, y) = (a.drop_last(), b.drop_last());
        assert forall|i: int| 0 <= i < x.len() implies (#[trigger] x[i]).0 == y[i].0 && alike(
            x[i].1,
            y[i].1,
        ) by {
            assert(x[i] == a[i]);
        }
        lemma_alike_section(x, y, dep_type);
        assert(a[a.len() - 1].0 == b[a.len() - 1].0);
    }
}

proof fn lemma_alike_group(a: Tree, b: Tree, dep_type: DepType)
    requires
        alike(a, b),
    ensures
        group_deps(a, dep_type) == group_deps(b, dep_type),
{
    if let Some(name) = section_name(dep_type) {
        lemma_alike_child(a, b, name);
        if let (Some(x), Some(y)) = (child(a, name), child(b, name)) {
            lemma_alike_section(entries_of(x), entries_of(y), dep_type);
        }
    }
}

/// The version that a package would be at.
pub open spec fn version_after(dep: Dep) -> Seq<char> {
    if dep.latest is Some {
        dep.latest->0
    } else {
        dep.current
    }
}

/// Package `j` is the last one of the name.
pub open spec fn is_last_of(items: Seq<Dep>, name: Seq<char>, j: int) -> bool {
    &&& 0 <= j < items.len()
    &&& items[j].name == name
    &&& forall|h: int| j < h < items.len() ==> (#[trigger] items[h]).name != name
}

proof fn lemma_last_named(items: Seq<Dep>, name: Seq<char>)
    ensures
        match last_named(items, name) {
            Some(j) => is_last_of(items, name, j),
            None => forall|h: int| 0 <= h < items.len() ==> (#[trigger] items[h]).name != name,
        },
    decreases items.len(),
{
    if items.len() > 0 {
        let init = items.drop_last();
        lemma_last_named(init, name);
        assert(items.last() == items[items.len() - 1]);
        if items.last().name != name {
            match last_named(init, name) {
                Some(j) => {
                    assert(init[j] == items[j]);
                    assert forall|h: int| j < h < items.len() implies (#[trigger] items[h]).name
                        != name by {
                        if h < init.len() {
                            assert(init[h] == items[h]);
                        }
                    }
                },
                None => {
                    assert forall|h: int| 0 <= h < items.len() implies (#[trigger] items[h]).name
                        != name by {
                        if h < init.len() {
                            assert(init[h] == items[h]);
                        }
                    }
                },
            }
        }
    }
}

/// A peer is met unless a package of its name is here and its range does not admit
/// the version that the last such package would be at. No more of that package
/// counts.
pub proof fn law_peer_verdict(items: Seq<Dep>, peer: (Seq<char>, Seq<char>), j: int)
    ensures
        is_last_of(items, peer.0, j) ==> (is_met(items, peer) <==> npm_admits(
            peer.1,
            version_after(items[j]),
        ) != Some(false)),
        (forall|h: int| 0 <= h < items.len() ==> (#[trigger] items[h]).name != peer.0) ==> is_met(
            items,
            peer,
        ),
{
    lemma_last_named(items, peer.0);
    if is_last_of(items, peer.0, j) {
        let k = last_named(items, peer.0)->0;
        if k < j {
            assert(items[j].name != peer.0);
        } else if j < k {
            assert(items[k].name != peer.0);
        }
    }
}

/// Peer `k` of package `i` makes the conflict with package `j`.
pub open spec fn clashes(items: Seq<Dep>, i: int, k: int, j: int, c: Conflict) -> bool {
    &&& 0 <= i < items.len()
    &&& 0 <= k < items[i].peers.len()
    &&& is_last_of(items, items[i].peers[k].0, j)
    &&& npm_admits(items[i].peers[k].1, version_after(items[j])) == Some(false)
    &&& c.blocker == items[i].name
    &&& c.blocker_version == version_after(items[i])
    &&& c.required_range == items[i].peers[k].1
}

proof fn lemma_clash(items: Seq<Dep>, i: int, k: int, j: int)
    requires
        0 <= i < items.len(),
        0 <= k < items[i].peers.len(),
    ensures
        last_named(items, items[i].peers[k].0) == Some(j) && !peer_met(items)(i, k) <==> (
        is_last_of(items, items[i].peers[k].0, j) && npm_admits(
            items[i].peers[k].1,
            version_after(items[j]),
        ) == Some(false)),
{
    let peer = items[i].peers[k];
    lemma_last_named(items, peer.0);
    law_peer_verdict(items, peer, j);
    if is_last_of(items, peer.0, j) {
        assert(items[j].name == peer.0);
        let m = last_named(items, peer.0)->0;
        if m < j {
            assert(items[j].name != peer.0);
        } else if j < m {
            assert(items[m].name != peer.0);
        }
    }
}

proof fn lemma_clashes_from(items: Seq<Dep>, i: int, n: int, j: int, c: Conflict)
    requires
        0 <= i < items.len(),
        n <= items[i].peers.len(),
    ensures
        conflicts_from(items, peer_met(items), i, n, j).contains(c) <==> exists|k: int|
            0 <= k < n && #[trigger] clashes(items, i, k, j, c),
    decreases n,
{
    let all = conflicts_from(items, peer_met(items), i, n, j);
    if n > 0 {
        let before = conflicts_from(items, peer_met(items), i, n - 1, j);
        lemma_clashes_from(items, i, n - 1, j, c);
        lemma_clash(items, i, n - 1, j);
        if all.contains(c) {
            let at = choose|at: int| 0 <= at < all.len() && all[at] == c;
            if at < before.len() {
                assert(before[at] == c);
            } else {
                assert(clashes(items, i, n - 1, j, c));
            }
        }
        if exists|k: int| 0 <= k < n && #[trigger] clashes(items, i, k, j, c) {
            let k = choose|k: int| 0 <= k < n && #[trigger] clashes(items, i, k, j, c);
            if k < n - 1 {
                assert(before.contains(c));
                let at = choose|at: int| 0 <= at < before.len() && before[at] == c;
                assert(all[at] == c);
            } else {
                assert(all[all.len() - 1] == c);
            }
        }
    }
}

proof fn lemma_clashes_with(items: Seq<Dep>, m: int, j: int, c: Conflict)
    requires
        m <= items.len(),
    ensures
        conflicts_with(items, peer_met(items), m, j).contains(c) <==> exists|i: int, k: int|
            0 <= i < m && #[trigger] clashes(items, i, k, j, c),
    decreases m,
{
    let all = conflicts_with(items, peer_met(items), m, j);
    if m > 0 {
        let before = conflicts_with(items, peer_met(items), m - 1, j);
        let n = items[m - 1].peers.len() as int;
        let new = conflicts_from(items, peer_met(items), m - 1, n, j);
        lemma_clashes_with(items, m - 1, j, c);
        lemma_clashes_from(items, m - 1, n, j, c);
        if all.contains(c) {
            let at = choose|at: int| 0 <= at < all.len() && all[at] == c;
            if at < before.len() {
                assert(before[at] == c);
            } else {
                assert(new[at - before.len()] == c);
            }
        }
        if exists|i: int, k: int| 0 <= i < m && #[trigger] clashes(items, i, k, j, c) {
            let (i, k) = choose|i: int, k: int| 0 <= i < m && #[trigger] clashes(items, i, k, j, c);
            if i < m - 1 {
                assert(before.contains(c));
                let at = choose|at: int| 0 <= at < before.len() && before[at] == c;
                assert(all[at] == c);
            } else {
                assert(new.contains(c));
                let at = choose|at: int| 0 <= at < new.len() && new[at] == c;
                assert(all[before.len() + at] == c);
            }
        }
    }
}

/// A package is held back by exactly those packages whose peer range does not admit
/// the version that it would be at, and nothing else of it changes.
pub proof fn law_held_back_by_clashes(items: Seq<Dep>, j: int, c: Conflict)
    requires
        0 <= j < items.len(),
    ensures
        ({
            let r = held_back(items, peer_met(items), j);
            let n = items[j].held_back.len() as int;
            &&& r == Dep { held_back: r.held_back, ..items[j] }
            &&& r.held_back.len() >= n
            &&& r.held_back.take(n) == items[j].held_back
            &&& r.held_back.skip(n).contains(c) <==> exists|i: int, k: int| #[trigger]
                clashes(items, i, k, j, c)
        }),
{
    let r = held_back(items, peer_met(items), j);
    let n = items[j].held_back.len() as int;
    let new = conflicts_with(items, peer_met(items), items.len() as int, j);
    assert(r.held_back.take(n) =~= items[j].held_back);
    assert(r.held_back.skip(n) =~= new);
    lemma_clashes_with(items, items.len() as int, j, c);
    if exists|i: int, k: int| #[trigger] clashes(items, i, k, j, c) {
        let (i, k) = choose|i: int, k: int| #[trigger] clashes(items, i, k, j, c);
        assert(0 <= i < items.len());
    }
}

/// What is written ends with the latest version. With ranges preserved, what stands
/// before it is the longest start of the old text without a digit; else nothing
/// stands before it.
pub proof fn law_latest_version_is_written(old: Seq<char>, latest: Seq<char>, preserve: bool)
    ensures
        ({
            let r = new_version(old, latest, preserve);
            let p = r.len() - latest.len();
            &&& 0 <= p
            &&& r.skip(p) == latest
            &&& !preserve ==> p == 0
            &&& preserve ==> {
                &&& p <= old.len()
                &&& r.take(p) == old.take(p)
                &&& forall|i: int| 0 <= i < p ==> !('0' <= #[trigger] old[i] && old[i] <= '9')
                &&& p < old.len() ==> '0' <= old[p] && old[p] <= '9'
            }
            &&& old.len() > 0 && '0' <= old[0] && old[0] <= '9' ==> r == latest
        }),
{
    let r = new_version(old, latest, preserve);
    let p = r.len() - latest.len();
    chars::lemma_leading(old, chars::not_digit());
    assert(r.skip(p) =~= latest);
    if preserve {
        assert(r.take(p) =~= old.take(p));
        assert forall|i: int| 0 <= i < p implies !('0' <= #[trigger] old[i] && old[i] <= '9') by {
            assert(chars::not_digit()(old[i]));
        }
        if p < old.len() {
            assert(!chars::not_digit()(old[p]));
        }
        if old.len() > 0 && '0' <= old[0] && old[0] <= '9' && p > 0 {
            assert(chars::not_digit()(old[0]));
        }
    }
}

/// The peers that count are those that are not marked optional.
pub proof fn law_optional_peers_do_not_count(
    peers: Seq<(Seq<char>, Seq<char>)>,
    optional: Seq<Seq<char>>,
)
    ensures
        forall|p: (Seq<char>, Seq<char>)| #[trigger]
            required(peers, optional).contains(p) <==> peers.contains(p) && !optional.contains(p.0),
{
    lemma_filtered(peers, |p: (Seq<char>, Seq<char>)| !optional.contains(p.0));
}

/// After a lookup a package has the version and the peers of the release. It is up
/// to date where its range admits that version, or, where one of the two cannot be
/// read, where they are the same text.
pub proof fn law_lookup(dep: Dep, release: Release, admitted: Option<bool>)
    ensures
        ({
            let r = resolved(dep, Some(release), admitted);
            &&& r.latest == Some(release.version@)
            &&& r.peers == chars::pairs(release.peers@)
            &&& admitted is Some ==> r.satisfied == admitted->0
            &&& admitted is None ==> (r.satisfied <==> release.version@ == dep.current)
            &&& r == Dep { latest: r.latest, satisfied: r.satisfied, peers: r.peers, ..dep }
            &&& resolved(dep, None, admitted) == (Dep { check_failed: true, ..dep })
        }),
{
}

/// A text in one of the three sections of a manifest is a package of the section's
/// group, and every package that is listed is such a text.
pub proof fn law_listed_packages(doc: Tree)
    ensures
        forall|d: Dep| #[trigger] listed(doc).contains(d) <==> {
            ||| is_entry(doc, "dependencies"@, DepType::Normal, d)
            ||| is_entry(doc, "devDependencies"@, DepType::Dev, d)
            ||| is_entry(doc, "optionalDependencies"@, DepType::Optional, d)
        },
{
    assert forall|d: Dep| #[trigger] listed(doc).contains(d) <==> {
        ||| is_entry(doc, "dependencies"@, DepType::Normal, d)
        ||| is_entry(doc, "devDependencies"@, DepType::Dev, d)
        ||| is_entry(doc, "optionalDependencies"@, DepType::Optional, d)
    } by {
        let (a, b, c) = (
            group_deps(doc, DepType::Normal),
            group_deps(doc, DepType::Dev),
            group_deps(doc, DepType::Optional),
        );
        lemma_group_listed(doc, DepType::Normal, d);
        lemma_group_listed(doc, DepType::Dev, d);
        lemma_group_listed(doc, DepType::Optional, d);
        lemma_three(a, b, c, d);
    }
}

/// The section has a text under the name of the package, which is its range.
pub open spec fn is_entry(doc: Tree, section: Seq<char>, dep_type: DepType, d: Dep) -> bool {
    &&& child(doc, section) is Some
    &&& entries_of(child(doc, section)->0).contains((d.name, Tree::Text(d.current)))
    &&& d.dep_type == dep_type
    &&& d.latest is None
    &&& !d.satisfied
    &&& !d.check_failed
    &&& d.peers.len() == 0
    &&& d.held_back.len() == 0
}

/// What three lists hold together.
pub proof fn lemma_three<A>(a: Seq<A>, b: Seq<A>, c: Seq<A>, x: A)
    ensures
        (a + b + c).contains(x) <==> a.contains(x) || b.contains(x) || c.contains(x),
{
    let all = a + b + c;
    if all.contains(x) {
        let i = choose|i: int| 0 <= i < all.len() && all[i] == x;
        if i < a.len() {
            assert(a[i] == x);
        } else if i < a.len() + b.len() {
            assert(b[i - a.len()] == x);
        } else {
            assert(c[i - a.len() - b.len()] == x);
        }
    }
    if a.contains(x) {
        let i = choose|i: int| 0 <= i < a.len() && a[i] == x;
        assert(all[i] == x);
    }
    if b.contains(x) {
        let i = choose|i: int| 0 <= i < b.len() && b[i] == x;
        assert(all[a.len() + i] == x);
    }
    if c.contains(x) {
        let i = choose|i: int| 0 <= i < c.len() && c[i] == x;
        assert(all[a.len() + b.len() + i] == x);
    }
}

proof fn lemma_group_listed(doc: Tree, dep_type: DepType, d: Dep)
    requires
        section_name(dep_type) is Some,
    ensures
        group_deps(doc, dep_type).contains(d) <==> is_entry(
            doc,
            section_name(dep_type)->0,
            dep_type,
            d,
        ),
{
    if let Some(section) = child(doc, section_name(dep_type)->0) {
        lemma_section_listed(entries_of(section), dep_type, d);
    }
}

proof fn lemma_section_listed(entries: Seq<(Seq<char>, Tree)>, dep_type: DepType, d: Dep)
    ensures
        section_deps(entries, dep_type).contains(d) <==> entries.contains(
            (d.name, Tree::Text(d.current)),
        ) && d == Dep::fresh(d.name, d.current, dep_type),
        d == Dep::fresh(d.name, d.current, dep_type) <==> (d.dep_type == dep_type && d.latest is None
            && !d.satisfied && !d.check_failed && d.peers.len() == 0 && d.held_back.len() == 0),
    decreases entries.len(),
{
    let e = (d.name, Tree::Text(d.current));
    if d.peers.len() == 0 && d.held_back.len() == 0 {
        assert(d.peers =~= seq![]);
        assert(d.held_back =~= seq![]);
    }
    if entries.len() > 0 {
        let init = entries.drop_last();
        let before = section_deps(init, dep_type);
        let all = section_deps(entries, dep_type);
        lemma_section_listed(init, dep_type, d);
        if all.contains(d) {
            let i = choose|i: int| 0 <= i < all.len() && all[i] == d;
            if i < before.len() {
                assert(before[i] == d);
                assert(before.contains(d));
                let k = choose|k: int| 0 <= k < init.len() && init[k] == e;
                assert(entries[k] == e);
            } else {
                assert(entries[entries.len() - 1] == e);
            }
        }
        if entries.contains(e) && d == Dep::fresh(d.name, d.current, dep_type) {
            let k = choose|k: int| 0 <= k < entries.len() && entries[k] == e;
            if k < init.len() {
                assert(init[k] == e);
                assert(before.contains(d));
                let i = choose|i: int| 0 <= i < before.len() && before[i] == d;
                assert(all[i] == d);
            } else {
                assert(all[all.len() - 1] == d);
            }
        }
    }
}

/// A lock file of pnpm tells of pnpm, else one of yarn of yarn, else a lock file of
/// npm or a manifest of npm; a directory without these has no package manager.
pub proof fn law_package_manager(dir: Dir)
    ensures
        ({
            let holds = |name: Seq<char>| dir.files.contains(name);
            let r = JsPackageManager::of(dir);
            &&& r == Some(JsPackageManager::Pnpm) <==> holds("pnpm-lock.yaml"@)
            &&& r == Some(JsPackageManager::Yarn) <==> holds("yarn.lock"@) && !holds("pnpm-lock.yaml"@)
            &&& r == Some(JsPackageManager::Npm) <==> !holds("yarn.lock"@) && !holds("pnpm-lock.yaml"@)
                && (holds("package-lock.json"@) || holds("package.json"@))
        }),
{
}

/// An update writes to the entry of its package in the section of its group: the
/// latest version, behind what stood before the first digit where ranges are
/// preserved. Without such an entry, or without a newer version, it writes nothing.
pub proof fn law_update_writes(doc: Tree, dep: Dep, preserve: bool)
    ensures
        ({
            let section = if dep.dep_type == DepType::Dev {
                "devDependencies"@
            } else if dep.dep_type == DepType::Optional {
                "optionalDependencies"@
            } else {
                "dependencies"@
            };
            let path = seq![Stride::Key(section), Stride::Key(dep.name)];
            let new = updated(doc, seq![dep], preserve);
            let written = text_at(new, path);
            &&& dep.dep_type == DepType::Build || dep.latest is None || at(doc, path) is None ==> new
                == doc
            &&& dep.dep_type != DepType::Build && dep.latest is Some && text_at(doc, path) is Some
                ==> {
                &&& written is Some
                &&& !preserve ==> written == dep.latest
                &&& preserve ==> is_behind_prefix(
                    written->0,
                    text_at(doc, path)->0,
                    dep.latest->0,
                )
            }
        }),
{
    let one = seq![dep];
    assert(one.drop_last() =~= seq![]);
    assert(updated(doc, one.drop_last(), preserve) == doc);
    assert(updated(doc, one, preserve) == edited(doc, dep, preserve));
    if let Some(section) = section_name(dep.dep_type) {
        let path = seq![Stride::Key(section), Stride::Key(dep.name)];
        let first = seq![Stride::Key(section)];
        assert(path =~= first.push(Stride::Key(dep.name)));
        lemma_at_push(doc, first, Stride::Key(dep.name));
        assert(first =~= Seq::<Stride>::empty().push(Stride::Key(section)));
        lemma_at_push(doc, seq![], Stride::Key(section));
        if dep.latest is Some && at(doc, path) is Some {
            let old = at(doc, path)->0;
            let w = new_version(text_or_empty(Some(old)), dep.latest->0, preserve);
            assert(edit_of(doc, dep, preserve) == Some((path, w)));
            lemma_reaches(doc, path);
            law_put(doc, path, w);
            lemma_behind_prefix(text_or_empty(Some(old)), dep.latest->0);
        }
    }
}

/// A path that leads to a value can be written to.
pub proof fn lemma_reaches(t: Tree, path: Seq<Stride>)
    requires
        at(t, path) is Some,
    ensures
        reachable(t, path),
    decreases path.len(),
{
    if path.len() > 0 {
        lemma_reaches(step_to(t, path[0])->0, path.skip(1));
    }
}

/// A lookup gives the version released, and whether the range at hand admits it.
pub proof fn law_looked_up(dep: Dep, release: Release)
    ensures
        ({
            let r = looked_up(dep, Some(release));
            &&& r.latest == Some(release.version@)
            &&& r.satisfied == match npm_admits(dep.current, release.version@) {
                Some(answer) => answer,
                None => release.version@ == dep.current,
            }
            &&& r.peers == chars::pairs(release.peers@)
            &&& looked_up(dep, None) == (Dep { check_failed: true, ..dep })
        }),
{
}

/// Every package stays in its place and as it is, but for the clashes that are added to
/// what holds it back: those with a peer that a package requires of it and that its
/// version is not admitted by.
pub proof fn law_peers_resolved(items: Seq<Dep>, j: int, c: Conflict)
    requires
        0 <= j < items.len(),
    ensures
        after_peers(items).len() == items.len(),
        ({
            let r = after_peers(items)[j];
            let n = items[j].held_back.len() as int;
            &&& r == Dep { held_back: r.held_back, ..items[j] }
            &&& r.held_back.len() >= n
            &&& r.held_back.take(n) == items[j].held_back
            &&& r.held_back.skip(n).contains(c) <==> exists|i: int, k: int| #[trigger]
                clashes(items, i, k, j, c)
        }),
{
    law_held_back_by_clashes(items, j, c);
}

/// The packages of a section are listed in its order, and those of the three sections
/// one section after the other.
pub proof fn law_listed_in_order(
    doc: Tree,
    a: Seq<(Seq<char>, Tree)>,
    b: Seq<(Seq<char>, Tree)>,
    dep_type: DepType,
)
    ensures
        section_deps(a + b, dep_type) == section_deps(a, dep_type) + section_deps(b, dep_type),
        forall|i: int, j: int|
            0 <= i < j < listed(doc).len() && (#[trigger] listed(doc)[j]).dep_type
                == DepType::Normal ==> (#[trigger] listed(doc)[i]).dep_type == DepType::Normal,
        forall|i: int, j: int|
            0 <= i < j < listed(doc).len() && (#[trigger] listed(doc)[i]).dep_type
                == DepType::Optional ==> (#[trigger] listed(doc)[j]).dep_type == DepType::Optional,
    decreases b.len(),
{
    if b.len() == 0 {
        assert(a + b =~= a);
        assert(section_deps(a, dep_type) + section_deps(b, dep_type) =~= section_deps(a, dep_type));
    } else {
        law_listed_in_order(doc, a, b.drop_last(), dep_type);
        assert((a + b).drop_last() =~= a + b.drop_last());
        assert(section_deps(a + b, dep_type) =~= section_deps(a, dep_type) + section_deps(
            b,
            dep_type,
        ));
    }
    lemma_one_type(doc, DepType::Normal);
    lemma_one_type(doc, DepType::Dev);
    lemma_one_type(doc, DepType::Optional);
    let x = group_deps(doc, DepType::Normal);
    let y = group_deps(doc, DepType::Dev);
    let z = group_deps(doc, DepType::Optional);
    assert forall|i: int| 0 <= i < listed(doc).len() implies (#[trigger] listed(doc)[i]).dep_type
        == (if i < x.len() {
        DepType::Normal
    } else if i < x.len() + y.len() {
        DepType::Dev
    } else {
        DepType::Optional
    }) by {
        if i < x.len() {
            assert(listed(doc)[i] == x[i]);
        } else if i < x.len() + y.len() {
            assert(listed(doc)[i] == y[i - x.len()]);
        } else {
            assert(listed(doc)[i] == z[i - x.len() - y.len()]);
        }
    }
}

proof fn lemma_one_type(doc: Tree, dep_type: DepType)
    ensures
        forall|i: int|
            0 <= i < group_deps(doc, dep_type).len() ==> (#[trigger] group_deps(
                doc,
                dep_type,
            )[i]).dep_type == dep_type,
{
    if let Some(name) = section_name(dep_type) {
        if let Some(section) = child(doc, name) {
            lemma_section_type(entries_of(section), dep_type);
        }
    }
}

proof fn lemma_section_type(entries: Seq<(Seq<char>, Tree)>, dep_type: DepType)
    ensures
        forall|i: int|
            0 <= i < section_deps(entries, dep_type).len() ==> (#[trigger] section_deps(
                entries,
                dep_type,
            )[i]).dep_type == dep_type,
    decreases entries.len(),
{
    if entries.len() > 0 {
        lemma_section_type(entries.drop_last(), dep_type);
    }
}

} // verus!
