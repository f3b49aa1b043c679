//! Tables of dependencies for a terminal.
use vstd::prelude::*;
use vstd::string::*;
use crate::chars;
use crate::console::{Run, Style, runs, say};
use crate::plugin::{
    Conflict, Dep, DepType, Dependency, PeerConflict, conflicts, deps, keep, lemma_filtered,
    updatable, updatable_of,
};
use crate::text;

verus! {

/// The byte length of the longest text.
pub open spec fn widest(items: Seq<Seq<char>>) -> nat
    decreases items.len(),
{
    if items.len() == 0 {
        0
    } else {
        let before = widest(items.drop_last());
        let last = chars::bytes(items.last());
        if last > before {
            last
        } else {
            before
        }
    }
}

/// The names of dependencies.
pub open spec fn names(items: Seq<Dep>) -> Seq<Seq<char>> {
    items.map_values(|d: Dep| d.name)
}

/// The versions in use of dependencies.
pub open spec fn versions(items: Seq<Dep>) -> Seq<Seq<char>> {
    items.map_values(|d: Dep| d.current)
}

/// The names of the dependencies.
pub fn names_of(items: &Vec<Dependency>) -> (r: Vec<String>)
    ensures
        chars::views(r@) == names(deps(items@)),
{
    let ghost all = names(deps(items@));
    let mut out: Vec<String> = Vec::new();
    assert(chars::views(out@) =~= all.take(0));
    for i in 0..items.len()
        invariant
            all == names(deps(items@)),
            chars::views(out@) == all.take(i as int),
    {
        let ghost sofar = chars::views(out@);
        out.push(items[i].name.clone());
        assert(chars::views(out@) =~= sofar.push(all[i as int]));
        assert(all.take(i + 1) =~= all.take(i as int).push(all[i as int]));
    }
    assert(all.take(all.len() as int) =~= all);
    out
}

fn widest_name(items: &Vec<Dependency>) -> (r: usize)
    ensures
        r == widest(names(deps(items@))),
{
    let ghost all = names(deps(items@));
    let mut width: usize = 0;
    for i in 0..items.len()
        invariant
            all == names(deps(items@)),
            width == widest(all.take(i as int)),
    {
        assert(all.take(i + 1).drop_last() =~= all.take(i as int));
        assert(all.take(i + 1).last() == items@[i as int].name@);
        let n: usize = text::byte_len(items[i].name.as_str());
        if n > width {
            width = n;
        }
    }
    assert(all.take(all.len() as int) =~= all);
    width
}

fn widest_version(items: &Vec<Dependency>) -> (r: usize)
    ensures
        r == widest(versions(deps(items@))),
{
    let ghost all = versions(deps(items@));
    let mut width: usize = 0;
    for i in 0..items.len()
        invariant
            all == versions(deps(items@)),
            width == widest(all.take(i as int)),
    {
        assert(all.take(i + 1).drop_last() =~= all.take(i as int));
        assert(all.take(i + 1).last() == items@[i as int].current_version@);
        let n: usize = text::byte_len(items[i].current_version.as_str());
        if n > width {
            width = n;
        }
    }
    assert(all.take(all.len() as int) =~= all);
    width
}

/// The dependency stands in that group.
pub open spec fn in_group(group: DepType) -> spec_fn(Dep) -> bool {
    |d: Dep| d.dep_type == group
}

fn group_of(items: &Vec<Dependency>, group: DepType) -> (r: Vec<Dependency>)
    ensures
        deps(r@) == deps(items@).filter(in_group(group)),
{
    let test = |d: &Dependency| -> (b: bool)
        ensures
            b == in_group(group)(d@),
    {
        d.dep_type == group
    };
    keep(items, test, Ghost(in_group(group)))
}

/// The version that a dependency can have.
pub open spec fn latest_text(d: Dep) -> Seq<char> {
    match d.latest {
        Some(v) => v,
        None => "?"@,
    }
}

/// The version that a dependency can have, or a question mark.
pub fn latest_of(d: &Dependency) -> (r: &str)
    ensures
        r@ == latest_text(d@),
{
    match &d.latest_version {
        Some(v) => v.as_str(),
        None => "?",
    }
}

/// The packages that hold a dependency back.
pub open spec fn blockers(items: Seq<Conflict>) -> Seq<Seq<char>> {
    items.map_values(|c: Conflict| c.blocker)
}

fn blockers_of(items: &Vec<PeerConflict>) -> (r: Vec<String>)
    ensures
        chars::views(r@) == blockers(conflicts(items@)),
{
    let ghost all = blockers(conflicts(items@));
    let mut out: Vec<String> = Vec::new();
    assert(chars::views(out@) =~= all.take(0));
    for i in 0..items.len()
        invariant
            all == blockers(conflicts(items@)),
            chars::views(out@) == all.take(i as int),
    {
        let ghost sofar = chars::views(out@);
        out.push(items[i].blocker.clone());
        assert(chars::views(out@) =~= sofar.push(all[i as int]));
        assert(all.take(i + 1) =~= all.take(i as int).push(all[i as int]));
    }
    assert(all.take(all.len() as int) =~= all);
    out
}

/// The name `who`, once for each conflict that `blocker` has brought.
pub open spec fn each_block(items: Seq<Conflict>, blocker: Seq<char>, who: Seq<char>) -> Seq<
    Seq<char>,
>
    decreases items.len(),
{
    if items.len() == 0 {
        seq![]
    } else {
        let before = each_block(items.drop_last(), blocker, who);
        if items.last().blocker == blocker {
            before.push(who)
        } else {
            before
        }
    }
}

/// The names of the dependencies that `blocker` holds back.
pub open spec fn blocked(items: Seq<Dep>, blocker: Seq<char>) -> Seq<Seq<char>>
    decreases items.len(),
{
    if items.len() == 0 {
        seq![]
    } else {
        blocked(items.drop_last(), blocker) + each_block(
            items.last().held_back,
            blocker,
            items.last().name,
        )
    }
}

fn write_blocks(out: &mut Vec<String>, d: &Dependency, blocker: &str)
    ensures
        chars::views(final(out)@) == chars::views(old(out)@) + each_block(
            d@.held_back,
            blocker@,
            d@.name,
        ),
{
    let ghost first = chars::views(out@);
    let ghost all = conflicts(d.held_back_by@);
    assert(chars::views(out@) =~= first + each_block(all.take(0), blocker@, d.name@));
    for i in 0..d.held_back_by.len()
        invariant
            all == conflicts(d.held_back_by@),
            chars::views(out@) == first + each_block(all.take(i as int), blocker@, d.name@),
    {
        let ghost sofar = each_block(all.take(i as int), blocker@, d.name@);
        assert(all.take(i + 1).drop_last() =~= all.take(i as int));
        assert(all.take(i + 1).last() == d.held_back_by@[i as int]@);
        if text::eq(d.held_back_by[i].blocker.as_str(), blocker) {
            let ghost now = chars::views(out@);
            out.push(d.name.clone());
            assert(chars::views(out@) =~= now.push(d.name@));
            assert(now.push(d.name@) =~= first + sofar.push(d.name@));
        }
    }
    assert(all.take(all.len() as int) =~= all);
}

fn blocked_by(items: &Vec<Dependency>, blocker: &str) -> (r: Vec<String>)
    ensures
        chars::views(r@) == blocked(deps(items@), blocker@),
{
    let ghost all = deps(items@);
    let mut out: Vec<String> = Vec::new();
    assert(chars::views(out@) =~= seq![]);
    for i in 0..items.len()
        invariant
            all == deps(items@),
            chars::views(out@) == blocked(all.take(i as int), blocker@),
    {
        assert(all.take(i + 1).drop_last() =~= all.take(i as int));
        assert(all.take(i + 1).last() == items@[i as int]@);
        write_blocks(&mut out, &items[i], blocker);
    }
    assert(all.take(all.len() as int) =~= all);
    out
}

/// What is remarked on a dependency: what holds it back, or what it blocks.
pub open spec fn remark(all: Seq<Dep>, d: Dep) -> Seq<(Style, Seq<char>)> {
    let held = blocked(all, d.name);
    if d.held_back.len() > 0 {
        seq![
            (Style::Plain, "  "@),
            (Style::Yellow, "⚠ held back by "@ + chars::join(blockers(d.held_back), ", "@)),
        ]
    } else if held.len() > 0 {
        seq![(Style::Plain, "  "@), (Style::Dimmed, "⚑ blocks "@ + chars::join(held, ", "@))]
    } else {
        seq![]
    }
}

fn write_remark(out: &mut Vec<Run>, all: &Vec<Dependency>, d: &Dependency)
    ensures
        runs(final(out)@) == runs(old(out)@) + remark(deps(all@), d@),
{
    let ghost first = runs(out@);
    let held: Vec<String> = blocked_by(all, d.name.as_str());
    assert(chars::views(held@).len() == held@.len());
    if d.held_back_by.len() > 0 {
        let mut part: String = "⚠ held back by ".to_owned();
        let list: String = text::join(&blockers_of(&d.held_back_by), ", ");
        part.append(list.as_str());
        say(out, Style::Plain, "  ");
        say(out, Style::Yellow, part.as_str());
    } else if held.len() > 0 {
        let mut part: String = "⚑ blocks ".to_owned();
        let list: String = text::join(&held, ", ");
        part.append(list.as_str());
        say(out, Style::Plain, "  ");
        say(out, Style::Dimmed, part.as_str());
    }
    assert(runs(out@) =~= first + remark(deps(all@), d@));
}

/// The line of a dependency that has an update.
pub open spec fn row(all: Seq<Dep>, d: Dep, name_width: nat, version_width: nat) -> Seq<
    (Style, Seq<char>),
> {
    seq![
        (Style::Plain, "    "@),
        (Style::Bold, chars::pad(d.name, name_width)),
        (Style::Plain, "  "@),
        (Style::Red, chars::pad(d.current, version_width)),
        (Style::Plain, "  →  "@),
        (Style::Green, latest_text(d)),
    ] + remark(all, d) + seq![(Style::Plain, "\n"@)]
}

fn write_row(
    out: &mut Vec<Run>,
    all: &Vec<Dependency>,
    d: &Dependency,
    name_width: usize,
    version_width: usize,
)
    ensures
        runs(final(out)@) == runs(old(out)@) + row(
            deps(all@),
            d@,
            name_width as nat,
            version_width as nat,
        ),
{
    let ghost first = runs(out@);
    let name: String = text::pad(d.name.as_str(), name_width);
    let version: String = text::pad(d.current_version.as_str(), version_width);
    say(out, Style::Plain, "    ");
    say(out, Style::Bold, name.as_str());
    say(out, Style::Plain, "  ");
    say(out, Style::Red, version.as_str());
    say(out, Style::Plain, "  →  ");
    say(out, Style::Green, latest_of(d));
    write_remark(out, all, d);
    say(out, Style::Plain, "\n");
    assert(runs(out@) =~= first + row(deps(all@), d@, name_width as nat, version_width as nat));
}

/// The lines of dependencies that have updates.
pub open spec fn rows(all: Seq<Dep>, items: Seq<Dep>, name_width: nat, version_width: nat) -> Seq<
    (Style, Seq<char>),
>
    decreases items.len(),
{
    if items.len() == 0 {
        seq![]
    } else {
        rows(all, items.drop_last(), name_width, version_width) + row(
            all,
            items.last(),
            name_width,
            version_width,
        )
    }
}

/// The lines of a group, under its heading.
pub open spec fn group(
    all: Seq<Dep>,
    items: Seq<Dep>,
    kind: DepType,
    name_width: nat,
    version_width: nat,
) -> Seq<(Style, Seq<char>)> {
    let mine = items.filter(in_group(kind));
    if mine.len() == 0 {
        seq![]
    } else {
        heading(kind) + rows(all, mine, name_width, version_width)
    }
}

/// The heading of a group.
pub open spec fn heading(kind: DepType) -> Seq<(Style, Seq<char>)> {
    seq![(Style::Plain, "  "@), (Style::Dimmed, kind.label_text()), (Style::Plain, ":\n"@)]
}

fn write_heading(out: &mut Vec<Run>, kind: DepType)
    ensures
        runs(final(out)@) == runs(old(out)@) + heading(kind),
{
    let ghost first = runs(out@);
    say(out, Style::Plain, "  ");
    say(out, Style::Dimmed, kind.label());
    say(out, Style::Plain, ":\n");
    assert(runs(out@) =~= first + heading(kind));
}

fn write_group(
    out: &mut Vec<Run>,
    all: &Vec<Dependency>,
    items: &Vec<Dependency>,
    kind: DepType,
    name_width: usize,
    version_width: usize,
)
    ensures
        runs(final(out)@) == runs(old(out)@) + group(
            deps(all@),
            deps(items@),
            kind,
            name_width as nat,
            version_width as nat,
        ),
{
    let ghost first = runs(out@);
    let mine: Vec<Dependency> = group_of(items, kind);
    let ghost list = deps(mine@);
    assert(list.len() == mine@.len());
    if mine.len() == 0 {
        assert(runs(out@) =~= first + seq![]);
        return ;
    }
    write_heading(out, kind);
    let ghost begun = first + heading(kind);
    assert(runs(out@) =~= begun + rows(
        deps(all@),
        list.take(0),
        name_width as nat,
        version_width as nat,
    ));
    for i in 0..mine.len()
        invariant
            list == deps(mine@),
            runs(out@) == begun + rows(
                deps(all@),
                list.take(i as int),
                name_width as nat,
                version_width as nat,
            ),
    {
        let ghost sofar = rows(
            deps(all@),
            list.take(i as int),
            name_width as nat,
            version_width as nat,
        );
        assert(list.take(i + 1).drop_last() =~= list.take(i as int));
        assert(list.take(i + 1).last() == mine@[i as int]@);
        write_row(out, all, &mine[i], name_width, version_width);
        assert(runs(out@) =~= begun + (sofar + row(
            deps(all@),
            mine@[i as int]@,
            name_width as nat,
            version_width as nat,
        )));
    }
    assert(list.take(list.len() as int) =~= list);
    assert(runs(out@) =~= first + (heading(kind) + rows(
        deps(all@),
        list,
        name_width as nat,
        version_width as nat,
    )));
}

/// What a conflict says.
pub open spec fn clash(d: Dep, c: Conflict) -> Seq<(Style, Seq<char>)> {
    seq![
        (Style::Plain, "    "@),
        (Style::Bold, c.blocker),
        (
            Style::Plain,
            "@"@ + c.blocker_version + " requires "@ + d.name + "@"@ + c.required_range
                + "\n      "@,
        ),
        (Style::Dimmed, "→"@),
        (Style::Plain, " conflicts with "@ + d.name + "@"@ + latest_text(d) + "\n"@),
    ]
}

fn write_clash(out: &mut Vec<Run>, d: &Dependency, c: &PeerConflict)
    ensures
        runs(final(out)@) == runs(old(out)@) + clash(d@, c@),
{
    let ghost first = runs(out@);
    let mut needs: String = "@".to_owned();
    needs.append(c.blocker_version.as_str());
    needs.append(" requires ");
    needs.append(d.name.as_str());
    needs.append("@");
    needs.append(c.required_range.as_str());
    needs.append("\n      ");
    let mut against: String = " conflicts with ".to_owned();
    against.append(d.name.as_str());
    against.append("@");
    against.append(latest_of(d));
    against.append("\n");
    say(out, Style::Plain, "    ");
    say(out, Style::Bold, c.blocker.as_str());
    say(out, Style::Plain, needs.as_str());
    say(out, Style::Dimmed, "→");
    say(out, Style::Plain, against.as_str());
    assert(runs(out@) =~= first + clash(d@, c@));
}

/// What the conflicts of a dependency say.
pub open spec fn clashes(d: Dep, items: Seq<Conflict>) -> Seq<(Style, Seq<char>)>
    decreases items.len(),
{
    if items.len() == 0 {
        seq![]
    } else {
        clashes(d, items.drop_last()) + clash(d, items.last())
    }
}

fn write_clashes(out: &mut Vec<Run>, d: &Dependency)
    ensures
        runs(final(out)@) == runs(old(out)@) + clashes(d@, d@.held_back),
{
    let ghost first = runs(out@);
    let ghost all = conflicts(d.held_back_by@);
    assert(runs(out@) =~= first + clashes(d@, all.take(0)));
    for i in 0..d.held_back_by.len()
        invariant
            all == conflicts(d.held_back_by@),
            runs(out@) == first + clashes(d@, all.take(i as int)),
    {
        let ghost sofar = clashes(d@, all.take(i as int));
        assert(all.take(i + 1).drop_last() =~= all.take(i as int));
        assert(all.take(i + 1).last() == d.held_back_by@[i as int]@);
        write_clash(out, d, &d.held_back_by[i]);
        assert(runs(out@) =~= first + (sofar + clash(d@, d.held_back_by@[i as int]@)));
    }
    assert(all.take(all.len() as int) =~= all);
}

/// What all conflicts of dependencies say.
pub open spec fn all_clashes(items: Seq<Dep>) -> Seq<(Style, Seq<char>)>
    decreases items.len(),
{
    if items.len() == 0 {
        seq![]
    } else {
        all_clashes(items.drop_last()) + clashes(items.last(), items.last().held_back)
    }
}

/// The dependency is held back.
pub open spec fn is_held_back() -> spec_fn(Dep) -> bool {
    |d: Dep| d.held_back.len() > 0
}

/// The summary of the conflicts.
pub open spec fn summary(all: Seq<Dep>) -> Seq<(Style, Seq<char>)> {
    let held = all.filter(is_held_back());
    if held.len() == 0 {
        seq![]
    } else {
        seq![
            (Style::Plain, "  "@),
            (Style::Yellow, "⚠"@),
            (Style::Plain, " "@),
            (Style::BoldYellow, "peer dependency conflicts"@),
            (Style::Plain, ":\n"@),
        ] + all_clashes(held)
    }
}

fn write_summary(out: &mut Vec<Run>, all: &Vec<Dependency>)
    ensures
        runs(final(out)@) == runs(old(out)@) + summary(deps(all@)),
{
    let ghost first = runs(out@);
    let test = |d: &Dependency| -> (b: bool)
        ensures
            b == is_held_back()(d@),
    {
        d.held_back_by.len() > 0
    };
    let held: Vec<Dependency> = keep(all, test, Ghost(is_held_back()));
    let ghost list = deps(held@);
    assert(list.len() == held@.len());
    if held.len() == 0 {
        assert(runs(out@) =~= first + seq![]);
        return ;
    }
    say(out, Style::Plain, "  ");
    say(out, Style::Yellow, "⚠");
    say(out, Style::Plain, " ");
    say(out, Style::BoldYellow, "peer dependency conflicts");
    say(out, Style::Plain, ":\n");
    let ghost begun = runs(out@);
    assert(runs(out@) =~= begun + all_clashes(list.take(0)));
    for i in 0..held.len()
        invariant
            list == deps(held@),
            runs(out@) == begun + all_clashes(list.take(i as int)),
    {
        let ghost sofar = all_clashes(list.take(i as int));
        assert(list.take(i + 1).drop_last() =~= list.take(i as int));
        assert(list.take(i + 1).last() == held@[i as int]@);
        write_clashes(out, &held[i]);
        assert(runs(out@) =~= begun + (sofar + clashes(
            held@[i as int]@,
            held@[i as int]@.held_back,
        )));
    }
    assert(list.take(list.len() as int) =~= list);
    assert(runs(out@) =~= first + summary(deps(all@)));
}

/// The four groups of dependencies that have updates.
pub open spec fn groups(all: Seq<Dep>, items: Seq<Dep>) -> Seq<(Style, Seq<char>)> {
    let name_width = widest(names(items));
    let version_width = widest(versions(items));
    group(all, items, DepType::Normal, name_width, version_width) + group(
        all,
        items,
        DepType::Dev,
        name_width,
        version_width,
    ) + group(all, items, DepType::Build, name_width, version_width) + group(
        all,
        items,
        DepType::Optional,
        name_width,
        version_width,
    )
}

fn write_groups(out: &mut Vec<Run>, all: &Vec<Dependency>, items: &Vec<Dependency>)
    ensures
        runs(final(out)@) == runs(old(out)@) + groups(deps(all@), deps(items@)),
{
    let ghost first = runs(out@);
    let name_width: usize = widest_name(items);
    let version_width: usize = widest_version(items);
    write_group(out, all, items, DepType::Normal, name_width, version_width);
    write_group(out, all, items, DepType::Dev, name_width, version_width);
    write_group(out, all, items, DepType::Build, name_width, version_width);
    write_group(out, all, items, DepType::Optional, name_width, version_width);
    assert(runs(out@) =~= first + groups(deps(all@), deps(items@)));
}

/// The table of the updates that dependencies have.
pub open spec fn table(all: Seq<Dep>) -> Seq<(Style, Seq<char>)> {
    let items = all.filter(updatable());
    if all.len() == 0 {
        seq![(Style::Plain, "  No dependencies found.\n"@)]
    } else if items.len() == 0 {
        seq![
            (Style::Plain, "  "@),
            (Style::Green, "✓"@),
            (Style::Plain, " "@ + chars::decimal(all.len()) + " dependencies are up to date.\n"@),
        ]
    } else {
        seq![
            (Style::Plain, "  "@),
            (Style::Yellow, chars::decimal(items.len())),
            (
                Style::Plain,
                " updates available ("@ + chars::decimal((all.len() - items.len()) as nat)
                    + " up to date):\n\n"@,
            ),
        ] + groups(all, items) + summary(all) + seq![(Style::Plain, "\n"@)]
    }
}

/// The table of the updates that the dependencies have.
pub fn write_table(out: &mut Vec<Run>, all: &Vec<Dependency>)
    ensures
        runs(final(out)@) == runs(old(out)@) + table(deps(all@)),
{
    let ghost first = runs(out@);
    let ghost list = deps(all@);
    assert(list.len() == all@.len());
    if all.len() == 0 {
        say(out, Style::Plain, "  No dependencies found.\n");
        assert(runs(out@) =~= first + table(list));
        return ;
    }
    let items: Vec<Dependency> = updatable_of(all);
    assert(deps(items@).len() == items@.len());
    if items.len() == 0 {
        let mut part: String = " ".to_owned();
        let count: String = text::decimal(all.len() as u64);
        part.append(count.as_str());
        part.append(" dependencies are up to date.\n");
        say(out, Style::Plain, "  ");
        say(out, Style::Green, "✓");
        say(out, Style::Plain, part.as_str());
        assert(runs(out@) =~= first + table(list));
        return ;
    }
    proof {
        list.lemma_filter_len(updatable());
    }
    let count: String = text::decimal(items.len() as u64);
    let mut part: String = " updates available (".to_owned();
    let others: String = text::decimal((all.len() - items.len()) as u64);
    part.append(others.as_str());
    part.append(" up to date):\n\n");
    say(out, Style::Plain, "  ");
    say(out, Style::Yellow, count.as_str());
    say(out, Style::Plain, part.as_str());
    write_groups(out, all, &items);
    write_summary(out, all);
    say(out, Style::Plain, "\n");
    assert(runs(out@) =~= first + table(list));
}

/// The lines of dependencies, without their updates.
pub open spec fn plain_rows(items: Seq<Dep>, name_width: nat) -> Seq<(Style, Seq<char>)>
    decreases items.len(),
{
    if items.len() == 0 {
        seq![]
    } else {
        plain_rows(items.drop_last(), name_width).push(
            (
                Style::Plain,
                "    "@ + chars::pad(items.last().name, name_width) + "  "@ + items.last().current
                    + "\n"@,
            ),
        )
    }
}

/// The lines of a group of dependencies, without their updates.
pub open spec fn plain_group(items: Seq<Dep>, kind: DepType, name_width: nat) -> Seq<
    (Style, Seq<char>),
> {
    let mine = items.filter(in_group(kind));
    if mine.len() == 0 {
        seq![]
    } else {
        heading(kind) + plain_rows(mine, name_width)
    }
}

fn write_plain_group(out: &mut Vec<Run>, items: &Vec<Dependency>, kind: DepType, name_width: usize)
    ensures
        runs(final(out)@) == runs(old(out)@) + plain_group(deps(items@), kind, name_width as nat),
{
    let ghost first = runs(out@);
    let mine: Vec<Dependency> = group_of(items, kind);
    let ghost list = deps(mine@);
    assert(list.len() == mine@.len());
    if mine.len() == 0 {
        assert(runs(out@) =~= first + seq![]);
        return ;
    }
    write_heading(out, kind);
    let ghost begun = first + heading(kind);
    assert(runs(out@) =~= begun + plain_rows(list.take(0), name_width as nat));
    for i in 0..mine.len()
        invariant
            list == deps(mine@),
            runs(out@) == begun + plain_rows(list.take(i as int), name_width as nat),
    {
        let ghost sofar = plain_rows(list.take(i as int), name_width as nat);
        assert(list.take(i + 1).drop_last() =~= list.take(i as int));
        assert(list.take(i + 1).last() == mine@[i as int]@);
        let mut line: String = "    ".to_owned();
        let name: String = text::pad(mine[i].name.as_str(), name_width);
        line.append(name.as_str());
        line.append("  ");
        line.append(mine[i].current_version.as_str());
        line.append("\n");
        say(out, Style::Plain, line.as_str());
        assert(runs(out@) =~= begun + sofar.push((Style::Plain, line@)));
    }
    assert(list.take(list.len() as int) =~= list);
    assert(runs(out@) =~= first + (heading(kind) + plain_rows(list, name_width as nat)));
}

/// The list of the dependencies of a manifest.
pub open spec fn listing(items: Seq<Dep>) -> Seq<(Style, Seq<char>)> {
    let name_width = widest(names(items));
    if items.len() == 0 {
        seq![(Style::Plain, "  No dependencies found.\n\n"@)]
    } else {
        plain_group(items, DepType::Normal, name_width) + plain_group(
            items,
            DepType::Dev,
            name_width,
        ) + plain_group(items, DepType::Build, name_width) + plain_group(
            items,
            DepType::Optional,
            name_width,
        ) + seq![(Style::Plain, "\n"@)]
    }
}

/// The list of the dependencies of a manifest.
pub fn write_listing(out: &mut Vec<Run>, items: &Vec<Dependency>)
    ensures
        runs(final(out)@) == runs(old(out)@) + listing(deps(items@)),
{
    let ghost first = runs(out@);
    assert(deps(items@).len() == items@.len());
    if items.len() == 0 {
        say(out, Style::Plain, "  No dependencies found.\n\n");
    } else {
        let name_width: usize = widest_name(items);
        write_plain_group(out, items, DepType::Normal, name_width);
        write_plain_group(out, items, DepType::Dev, name_width);
        write_plain_group(out, items, DepType::Build, name_width);
        write_plain_group(out, items, DepType::Optional, name_width);
        say(out, Style::Plain, "\n");
    }
    assert(runs(out@) =~= first + listing(deps(items@)));
}

/// Every dependency stands in exactly one of the groups that are printed.
pub proof fn law_groups_hold_every_dependency(items: Seq<Dep>)
    ensures
        items.len() == items.filter(in_group(DepType::Normal)).len() + items.filter(
            in_group(DepType::Dev),
        ).len() + items.filter(in_group(DepType::Build)).len() + items.filter(
            in_group(DepType::Optional),
        ).len(),
    decreases items.len(),
{
    reveal(Seq::filter);
    if items.len() > 0 {
        law_groups_hold_every_dependency(items.drop_last());
    }
}

/// No column is narrower than what stands in it.
pub proof fn law_columns_are_wide_enough(items: Seq<Seq<char>>, i: int)
    requires
        0 <= i < items.len(),
    ensures
        chars::bytes(items[i]) <= widest(items),
    decreases items.len(),
{
    if i < items.len() - 1 {
        law_columns_are_wide_enough(items.drop_last(), i);
    }
}

/// A column is no wider than its widest text.
pub proof fn law_columns_are_not_too_wide(items: Seq<Seq<char>>)
    ensures
        widest(items) == 0 || exists|i: int|
            0 <= i < items.len() && #[trigger] chars::bytes(items[i]) == widest(items),
    decreases items.len(),
{
    if items.len() > 0 {
        let front = items.drop_last();
        let n = items.len() - 1;
        law_columns_are_not_too_wide(front);
        if chars::bytes(items.last()) > widest(front) {
            assert(chars::bytes(items[n]) == widest(items));
        } else if widest(front) > 0 {
            let i = choose|i: int|
                0 <= i < front.len() && #[trigger] chars::bytes(front[i]) == widest(front);
            assert(chars::bytes(items[i]) == widest(items));
        }
    }
}

/// The packages that a package blocks: those that it holds back.
pub proof fn law_blocked(items: Seq<Dep>, blocker: Seq<char>, name: Seq<char>)
    ensures
        blocked(items, blocker).contains(name) <==> exists|i: int, j: int|
            #![trigger items[i].held_back[j]]
            0 <= i < items.len() && 0 <= j < items[i].held_back.len() && items[i].name == name
                && items[i].held_back[j].blocker == blocker,
    decreases items.len(),
{
    if items.len() > 0 {
        let front = items.drop_last();
        let n = items.len() - 1;
        let last = items.last();
        let a = blocked(front, blocker);
        let b = each_block(last.held_back, blocker, last.name);
        let all = blocked(items, blocker);
        law_blocked(front, blocker, name);
        lemma_each_block(last.held_back, blocker, last.name, name);
        if all.contains(name) {
            let k = choose|k: int| 0 <= k < all.len() && all[k] == name;
            if k < a.len() {
                assert(a[k] == name);
                assert(a.contains(name));
                let (i, j) = choose|i: int, j: int|
                    #![trigger front[i].held_back[j]]
                    0 <= i < front.len() && 0 <= j < front[i].held_back.len() && front[i].name
                        == name && front[i].held_back[j].blocker == blocker;
                assert(items[i].held_back[j].blocker == blocker);
            } else {
                assert(b[k - a.len()] == name);
                assert(b.contains(name));
                let j = choose|j: int|
                    0 <= j < last.held_back.len() && (#[trigger] last.held_back[j]).blocker
                        == blocker;
                assert(items[n].held_back[j].blocker == blocker);
            }
        }
        if exists|i: int, j: int|
            #![trigger items[i].held_back[j]]
            0 <= i < items.len() && 0 <= j < items[i].held_back.len() && items[i].name == name
                && items[i].held_back[j].blocker == blocker {
            let (i, j) = choose|i: int, j: int|
                #![trigger items[i].held_back[j]]
                0 <= i < items.len() && 0 <= j < items[i].held_back.len() && items[i].name == name
                    && items[i].held_back[j].blocker == blocker;
            if i < n {
                assert(front[i].held_back[j].blocker == blocker);
                let k = choose|k: int| 0 <= k < a.len() && a[k] == name;
                assert(all[k] == name);
            } else {
                assert(last.held_back[j].blocker == blocker);
                let k = choose|k: int| 0 <= k < b.len() && b[k] == name;
                assert(all[a.len() + k] == name);
            }
        }
    }
}

proof fn lemma_each_block(
    items: Seq<Conflict>,
    blocker: Seq<char>,
    who: Seq<char>,
    name: Seq<char>,
)
    ensures
        each_block(items, blocker, who).contains(name) <==> who == name && exists|j: int|
            0 <= j < items.len() && (#[trigger] items[j]).blocker == blocker,
    decreases items.len(),
{
    if items.len() > 0 {
        let front = items.drop_last();
        let n = items.len() - 1;
        let before = each_block(front, blocker, who);
        let all = each_block(items, blocker, who);
        lemma_each_block(front, blocker, who, name);
        if before.contains(name) {
            let j = choose|j: int| 0 <= j < front.len() && (#[trigger] front[j]).blocker == blocker;
            assert(items[j].blocker == blocker);
            let k = choose|k: int| 0 <= k < before.len() && before[k] == name;
            assert(all[k] == name);
        }
        if items.last().blocker == blocker {
            assert(items[n].blocker == blocker);
            assert(all[all.len() - 1] == who);
            if all.contains(name) {
                let k = choose|k: int| 0 <= k < all.len() && all[k] == name;
                if k < before.len() {
                    assert(before[k] == name);
                    assert(before.contains(name));
                }
            }
        }
        if exists|j: int| 0 <= j < items.len() && (#[trigger] items[j]).blocker == blocker {
            let j = choose|j: int| 0 <= j < items.len() && (#[trigger] items[j]).blocker == blocker;
            if j < n {
                assert(front[j].blocker == blocker);
            }
        }
    }
}

/// The runs stand in a row somewhere among the others.
pub open spec fn shows(all: Seq<(Style, Seq<char>)>, part: Seq<(Style, Seq<char>)>) -> bool {
    exists|at: int|
        0 <= at && at + part.len() <= all.len() && #[trigger] all.subrange(at, at + part.len())
            == part
}

proof fn lemma_shows_within(
    a: Seq<(Style, Seq<char>)>,
    b: Seq<(Style, Seq<char>)>,
    c: Seq<(Style, Seq<char>)>,
    part: Seq<(Style, Seq<char>)>,
)
    requires
        shows(b, part),
    ensures
        shows(a + b + c, part),
{
    let at = choose|at: int|
        0 <= at && at + part.len() <= b.len() && #[trigger] b.subrange(at, at + part.len()) == part;
    let all = a + b + c;
    let i = at + a.len();
    assert(all.subrange(i, i + part.len()) =~= b.subrange(at, at + part.len()));
}

proof fn lemma_row_shown(
    all: Seq<Dep>,
    items: Seq<Dep>,
    name_width: nat,
    version_width: nat,
    d: Dep,
)
    requires
        items.contains(d),
    ensures
        shows(
            rows(all, items, name_width, version_width),
            seq![
                (Style::Bold, chars::pad(d.name, name_width)),
                (Style::Plain, "  "@),
                (Style::Red, chars::pad(d.current, version_width)),
                (Style::Plain, "  →  "@),
                (Style::Green, latest_text(d)),
            ],
        ),
    decreases items.len(),
{
    let part = seq![
        (Style::Bold, chars::pad(d.name, name_width)),
        (Style::Plain, "  "@),
        (Style::Red, chars::pad(d.current, version_width)),
        (Style::Plain, "  →  "@),
        (Style::Green, latest_text(d)),
    ];
    let front = items.drop_last();
    let before = rows(all, front, name_width, version_width);
    let last = row(all, items.last(), name_width, version_width);
    let none = Seq::<(Style, Seq<char>)>::empty();
    let i = choose|i: int| 0 <= i < items.len() && items[i] == d;
    if i < front.len() {
        assert(front[i] == d);
        lemma_row_shown(all, front, name_width, version_width, d);
        lemma_shows_within(none, before, last, part);
        assert(none + before + last =~= before + last);
    } else {
        assert(items.last() == d);
        assert(last.subrange(1, (1 + part.len()) as int) =~= part);
        assert(shows(last, part));
        lemma_shows_within(before, last, none, part);
        assert(before + last + none =~= before + last);
    }
}

/// Every dependency that has an update has a row in the table: its name, its version
/// and the latest one, in columns as wide as the widest of those that have updates.
pub proof fn law_every_update_has_a_row(all: Seq<Dep>, d: Dep)
    requires
        all.contains(d),
        updatable()(d),
    ensures
        ({
            let items = all.filter(updatable());
            shows(
                table(all),
                seq![
                    (Style::Bold, chars::pad(d.name, widest(names(items)))),
                    (Style::Plain, "  "@),
                    (Style::Red, chars::pad(d.current, widest(versions(items)))),
                    (Style::Plain, "  →  "@),
                    (
                        Style::Green,
                        match d.latest {
                            Some(v) => v,
                            None => "?"@,
                        },
                    ),
                ],
            )
        }),
{
    let items = all.filter(updatable());
    let nw = widest(names(items));
    let vw = widest(versions(items));
    let part = seq![
        (Style::Bold, chars::pad(d.name, nw)),
        (Style::Plain, "  "@),
        (Style::Red, chars::pad(d.current, vw)),
        (Style::Plain, "  →  "@),
        (Style::Green, latest_text(d)),
    ];
    lemma_filtered(all, updatable());
    assert(items.contains(d));
    lemma_in_groups(all, items, d);
    let whole = groups(all, items);
    let end = seq![(Style::Plain, "\n"@)];
    let start = seq![
        (Style::Plain, "  "@),
        (Style::Yellow, chars::decimal(items.len())),
        (
            Style::Plain,
            " updates available ("@ + chars::decimal((all.len() - items.len()) as nat)
                + " up to date):\n\n"@,
        ),
    ];
    lemma_shows_within(start, whole, summary(all) + end, part);
    assert(items.len() > 0);
    assert(all.len() > 0);
    assert(start + whole + (summary(all) + end) =~= start + whole + summary(all) + end);
    assert(table(all) == start + whole + summary(all) + end);
    assert(part =~= seq![
        (Style::Bold, chars::pad(d.name, nw)),
        (Style::Plain, "  "@),
        (Style::Red, chars::pad(d.current, vw)),
        (Style::Plain, "  →  "@),
        (
            Style::Green,
            match d.latest {
                Some(v) => v,
                None => "?"@,
            },
        ),
    ]);
}

proof fn lemma_in_groups(all: Seq<Dep>, items: Seq<Dep>, d: Dep)
    requires
        items.contains(d),
    ensures
        shows(
            groups(all, items),
            seq![
                (Style::Bold, chars::pad(d.name, widest(names(items)))),
                (Style::Plain, "  "@),
                (Style::Red, chars::pad(d.current, widest(versions(items)))),
                (Style::Plain, "  →  "@),
                (Style::Green, latest_text(d)),
            ],
        ),
{
    let nw = widest(names(items));
    let vw = widest(versions(items));
    let part = seq![
        (Style::Bold, chars::pad(d.name, nw)),
        (Style::Plain, "  "@),
        (Style::Red, chars::pad(d.current, vw)),
        (Style::Plain, "  →  "@),
        (Style::Green, latest_text(d)),
    ];
    lemma_in_group(all, items, nw, vw, d);
    let normal = group(all, items, DepType::Normal, nw, vw);
    let dev = group(all, items, DepType::Dev, nw, vw);
    let build = group(all, items, DepType::Build, nw, vw);
    let optional = group(all, items, DepType::Optional, nw, vw);
    lemma_shows_one_of(normal, dev, build, optional, part);
}

proof fn lemma_shows_one_of(
    a: Seq<(Style, Seq<char>)>,
    b: Seq<(Style, Seq<char>)>,
    c: Seq<(Style, Seq<char>)>,
    e: Seq<(Style, Seq<char>)>,
    part: Seq<(Style, Seq<char>)>,
)
    requires
        shows(a, part) || shows(b, part) || shows(c, part) || shows(e, part),
    ensures
        shows(a + b + c + e, part),
{
    let none = Seq::<(Style, Seq<char>)>::empty();
    let whole = a + b + c + e;
    if shows(a, part) {
        lemma_shows_within(none, a, b + c + e, part);
        assert(none + a + (b + c + e) =~= whole);
    } else if shows(b, part) {
        lemma_shows_within(a, b, c + e, part);
        assert(a + b + (c + e) =~= whole);
    } else if shows(c, part) {
        lemma_shows_within(a + b, c, e, part);
    } else {
        lemma_shows_within(a + b + c, e, none, part);
        assert(a + b + c + e + none =~= whole);
    }
}

proof fn lemma_in_group(all: Seq<Dep>, items: Seq<Dep>, nw: nat, vw: nat, d: Dep)
    requires
        items.contains(d),
    ensures
        shows(
            group(all, items, d.dep_type, nw, vw),
            seq![
                (Style::Bold, chars::pad(d.name, nw)),
                (Style::Plain, "  "@),
                (Style::Red, chars::pad(d.current, vw)),
                (Style::Plain, "  →  "@),
                (Style::Green, latest_text(d)),
            ],
        ),
{
    let kind = d.dep_type;
    let mine = items.filter(in_group(kind));
    let part = seq![
        (Style::Bold, chars::pad(d.name, nw)),
        (Style::Plain, "  "@),
        (Style::Red, chars::pad(d.current, vw)),
        (Style::Plain, "  →  "@),
        (Style::Green, latest_text(d)),
    ];
    lemma_filtered(items, in_group(kind));
    assert(mine.contains(d));
    let none = Seq::<(Style, Seq<char>)>::empty();
    lemma_row_shown(all, mine, nw, vw, d);
    let body = rows(all, mine, nw, vw);
    lemma_shows_within(heading(kind), body, none, part);
    assert(heading(kind) + body + none =~= heading(kind) + body);
}

proof fn lemma_plain_row(items: Seq<Dep>, name_width: nat, d: Dep)
    requires
        items.contains(d),
    ensures
        plain_rows(items, name_width).contains(
            (
                Style::Plain,
                "    "@ + chars::pad(d.name, name_width) + "  "@ + d.current + "\n"@,
            ),
        ),
    decreases items.len(),
{
    let front = items.drop_last();
    let all = plain_rows(items, name_width);
    let before = plain_rows(front, name_width);
    let line = (Style::Plain, "    "@ + chars::pad(d.name, name_width) + "  "@ + d.current + "\n"@);
    let i = choose|i: int| 0 <= i < items.len() && items[i] == d;
    if i < front.len() {
        assert(front[i] == d);
        lemma_plain_row(front, name_width, d);
        let k = choose|k: int| 0 <= k < before.len() && before[k] == line;
        assert(all[k] == line);
    } else {
        assert(all[before.len() as int] == line);
    }
}

proof fn lemma_contained<A>(a: Seq<A>, b: Seq<A>, c: Seq<A>, x: A)
    requires
        b.contains(x),
    ensures
        (a + b + c).contains(x),
{
    let i = choose|i: int| 0 <= i < b.len() && b[i] == x;
    assert((a + b + c)[a.len() + i] == x);
}

/// Every dependency is listed, with its name and its version.
pub proof fn law_every_dependency_is_listed(items: Seq<Dep>, d: Dep)
    requires
        items.contains(d),
    ensures
        listing(items).contains(
            (
                Style::Plain,
                "    "@ + chars::pad(d.name, widest(names(items))) + "  "@ + d.current + "\n"@,
            ),
        ),
{
    let w = widest(names(items));
    let line = (Style::Plain, "    "@ + chars::pad(d.name, w) + "  "@ + d.current + "\n"@);
    let kind = d.dep_type;
    let mine = items.filter(in_group(kind));
    let none = Seq::<(Style, Seq<char>)>::empty();
    lemma_filtered(items, in_group(kind));
    assert(mine.contains(d));
    lemma_plain_row(mine, w, d);
    let g = plain_group(items, kind, w);
    lemma_contained(heading(kind), plain_rows(mine, w), none, line);
    assert(heading(kind) + plain_rows(mine, w) + none =~= g);
    let a = plain_group(items, DepType::Normal, w);
    let b = plain_group(items, DepType::Dev, w);
    let c = plain_group(items, DepType::Build, w);
    let e = plain_group(items, DepType::Optional, w);
    let end = seq![(Style::Plain, "\n"@)];
    match kind {
        DepType::Normal => {
            lemma_contained(none, g, b + c + e + end, line);
            assert(none + g + (b + c + e + end) =~= listing(items));
        },
        DepType::Dev => {
            lemma_contained(a, g, c + e + end, line);
            assert(a + g + (c + e + end) =~= listing(items));
        },
        DepType::Build => {
            lemma_contained(a + b, g, e + end, line);
            assert(a + b + g + (e + end) =~= listing(items));
        },
        DepType::Optional => {
            lemma_contained(a + b + c, g, end, line);
        },
    }
}

/// What the table says first: that there is nothing, that all are up to date, or how
/// many updates there are and how many are up to date.
pub proof fn law_table_counts(all: Seq<Dep>)
    ensures
        ({
            let n = all.filter(updatable()).len();
            &&& all.len() == 0 ==> table(all) == seq![(Style::Plain, "  No dependencies found.\n"@)]
            &&& all.len() > 0 && n == 0 ==> table(all).len() == 3 && table(all)[2] == (
                Style::Plain,
                " "@ + chars::decimal(all.len()) + " dependencies are up to date.\n"@,
            )
            &&& all.len() > 0 && n > 0 ==> table(all).len() > 3 && table(all)[1] == (
                Style::Yellow,
                chars::decimal(n),
            ) && table(all)[2] == (
                Style::Plain,
                " updates available ("@ + chars::decimal((all.len() - n) as nat)
                    + " up to date):\n\n"@,
            )
        }),
{
}

/// What is said behind a row: who holds the package back, else whom it blocks.
pub proof fn law_remark(all: Seq<Dep>, d: Dep)
    ensures
        d.held_back.len() > 0 ==> remark(all, d) == seq![
            (Style::Plain, "  "@),
            (
                Style::Yellow,
                "⚠ held back by "@ + chars::join(
                    Seq::new(d.held_back.len(), |i: int| d.held_back[i].blocker),
                    ", "@,
                ),
            ),
        ],
        d.held_back.len() == 0 && blocked(all, d.name).len() > 0 ==> remark(all, d) == seq![
            (Style::Plain, "  "@),
            (Style::Dimmed, "⚑ blocks "@ + chars::join(blocked(all, d.name), ", "@)),
        ],
        d.held_back.len() == 0 && blocked(all, d.name).len() == 0 ==> remark(all, d).len() == 0,
{
    assert(blockers(d.held_back) =~= Seq::new(d.held_back.len(), |i: int| d.held_back[i].blocker));
}

proof fn lemma_clash_shown(d: Dep, items: Seq<Conflict>, k: int)
    requires
        0 <= k < items.len(),
    ensures
        shows(clashes(d, items), clash(d, items[k])),
    decreases items.len(),
{
    let front = items.drop_last();
    let none = Seq::<(Style, Seq<char>)>::empty();
    let a = clashes(d, front);
    let b = clash(d, items.last());
    if k < front.len() {
        lemma_clash_shown(d, front, k);
        lemma_shows_within(none, a, b, clash(d, items[k]));
        assert(none + a + b =~= a + b);
    } else {
        lemma_shows_itself(b);
        lemma_shows_within(a, b, none, b);
        assert(a + b + none =~= a + b);
    }
}

proof fn lemma_shows_itself(b: Seq<(Style, Seq<char>)>)
    ensures
        shows(b, b),
{
    let at: int = 0;
    assert(b.subrange(at, at + b.len()) =~= b);
}

proof fn lemma_all_clashes(items: Seq<Dep>, i: int, k: int)
    requires
        0 <= i < items.len(),
        0 <= k < items[i].held_back.len(),
    ensures
        shows(all_clashes(items), clash(items[i], items[i].held_back[k])),
    decreases items.len(),
{
    let front = items.drop_last();
    let none = Seq::<(Style, Seq<char>)>::empty();
    let a = all_clashes(front);
    let b = clashes(items.last(), items.last().held_back);
    let part = clash(items[i], items[i].held_back[k]);
    if i < front.len() {
        assert(front[i] == items[i]);
        lemma_all_clashes(front, i, k);
        lemma_shows_within(none, a, b, part);
        assert(none + a + b =~= a + b);
    } else {
        lemma_clash_shown(items.last(), items.last().held_back, k);
        lemma_shows_within(a, b, none, part);
        assert(a + b + none =~= a + b);
    }
}

/// The summary names every clash: who requires which range of the package, and the
/// version that it clashes with.
pub proof fn law_every_clash_is_named(all: Seq<Dep>, d: Dep, k: int)
    requires
        all.contains(d),
        0 <= k < d.held_back.len(),
    ensures
        ({
            let c = d.held_back[k];
            shows(
                summary(all),
                seq![
                    (Style::Plain, "    "@),
                    (Style::Bold, c.blocker),
                    (
                        Style::Plain,
                        "@"@ + c.blocker_version + " requires "@ + d.name + "@"@ + c.required_range
                            + "\n      "@,
                    ),
                    (Style::Dimmed, "→"@),
                    (
                        Style::Plain,
                        " conflicts with "@ + d.name + "@"@ + (if d.latest is Some {
                            d.latest->0
                        } else {
                            "?"@
                        }) + "\n"@,
                    ),
                ],
            )
        }),
{
    let held = all.filter(is_held_back());
    let c = d.held_back[k];
    lemma_filtered(all, is_held_back());
    assert(held.contains(d));
    let i = choose|i: int| 0 <= i < held.len() && held[i] == d;
    lemma_all_clashes(held, i, k);
    let front = seq![
        (Style::Plain, "  "@),
        (Style::Yellow, "⚠"@),
        (Style::Plain, " "@),
        (Style::BoldYellow, "peer dependency conflicts"@),
        (Style::Plain, ":\n"@),
    ];
    let none = Seq::<(Style, Seq<char>)>::empty();
    lemma_shows_within(front, all_clashes(held), none, clash(d, c));
    assert(front + all_clashes(held) + none =~= front + all_clashes(held));
    assert(summary(all) == front + all_clashes(held));
    assert(clash(d, c) =~= seq![
        (Style::Plain, "    "@),
        (Style::Bold, c.blocker),
        (
            Style::Plain,
            "@"@ + c.blocker_version + " requires "@ + d.name + "@"@ + c.required_range
                + "\n      "@,
        ),
        (Style::Dimmed, "→"@),
        (
            Style::Plain,
            " conflicts with "@ + d.name + "@"@ + (if d.latest is Some {
                d.latest->0
            } else {
                "?"@
            }) + "\n"@,
        ),
    ]);
}

} // verus!
