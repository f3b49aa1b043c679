//! What the commands decide and say.
use vstd::prelude::*;
use vstd::string::*;
use crate::chars;
use crate::console::{Run, Style, runs, say};
use crate::plugin::{Dep, Dependency, deps, keep, lemma_filtered, updatable, updatable_of};
use crate::table::{listing, names, names_of, table, write_listing, write_table};
use crate::text;

verus! {

/// The name holds one of the texts.
pub open spec fn holds_any(texts: Seq<Seq<char>>, name: Seq<char>) -> bool {
    exists|i: int| 0 <= i < texts.len() && chars::has(name, #[trigger] texts[i])
}

/// The name holds one of the texts, if any are asked for.
pub open spec fn is_asked_for(filter: Option<Seq<Seq<char>>>, name: Seq<char>) -> bool {
    match filter {
        Some(texts) => holds_any(texts, name),
        None => true,
    }
}

/// What a filter asks for.
pub open spec fn filter_of(filter: Option<Vec<String>>) -> Option<Seq<Seq<char>>> {
    match filter {
        Some(texts) => Some(chars::views(texts@)),
        None => None,
    }
}

fn passes(filter: &Option<Vec<String>>, name: &str) -> (r: bool)
    ensures
        r == is_asked_for(filter_of(*filter), name@),
{
    match filter {
        Some(texts) => {
            for i in 0..texts.len()
                invariant
                    *filter == Some(*texts),
                    forall|j: int|
                        0 <= j < i ==> !chars::has(name@, #[trigger] chars::views(texts@)[j]),
            {
                if text::has(name, texts[i].as_str()) {
                    assert(chars::has(name@, chars::views(texts@)[i as int]));
                    assert(holds_any(chars::views(texts@), name@));
                    return true;
                }
            }
            false
        },
        None => true,
    }
}

/// The dependency is asked for.
pub open spec fn asked_for(filter: Option<Seq<Seq<char>>>) -> spec_fn(Dep) -> bool {
    |d: Dep| is_asked_for(filter, d.name)
}

/// The dependencies that are asked for.
pub fn filtered(items: &Vec<Dependency>, filter: &Option<Vec<String>>) -> (r: Vec<Dependency>)
    ensures
        deps(r@) == deps(items@).filter(asked_for(filter_of(*filter))),
{
    let test = |d: &Dependency| -> (b: bool)
        ensures
            b == asked_for(filter_of(*filter))(d@),
    {
        passes(filter, d.name.as_str())
    };
    keep(items, test, Ghost(asked_for(filter_of(*filter))))
}

/// The lookup of the dependency has failed.
pub open spec fn has_failed() -> spec_fn(Dep) -> bool {
    |d: Dep| d.check_failed
}

fn failures(items: &Vec<Dependency>) -> (r: usize)
    ensures
        r == deps(items@).filter(has_failed()).len(),
        r <= items@.len(),
{
    let ghost all = deps(items@);
    let mut n: usize = 0;
    proof {
        reveal(Seq::filter);
    }
    for i in 0..items.len()
        invariant
            all == deps(items@),
            n <= i,
            n == all.take(i as int).filter(has_failed()).len(),
    {
        proof {
            reveal(Seq::filter);
            assert(all.take(i + 1).drop_last() =~= all.take(i as int));
            assert(all.take(i + 1).last() == items@[i as int]@);
        }
        if items[i].check_failed {
            n = n + 1;
        }
    }
    assert(all.take(all.len() as int) =~= all);
    n
}

/// The dependencies of a manifest that were checked, and how that went.
#[derive(Debug)]
pub struct Checked {
    /// Those that are asked for.
    pub deps: Vec<Dependency>,
    /// How many were looked up.
    pub total: usize,
    /// How many lookups failed.
    pub failed: usize,
}

/// What is left of checked dependencies, and how the check went.
pub fn tally(items: &Vec<Dependency>, filter: &Option<Vec<String>>) -> (r: Checked)
    ensures
        deps(r.deps@) == deps(items@).filter(asked_for(filter_of(*filter))),
        r.total == items@.len(),
        r.failed == deps(items@).filter(has_failed()).len(),
        r.failed <= r.total,
{
    Checked { deps: filtered(items, filter), total: items.len(), failed: failures(items) }
}

/// The heading of a manifest.
pub open spec fn section(label: Seq<char>) -> Seq<(Style, Seq<char>)> {
    seq![(Style::Bold, "── "@ + label + " ──"@), (Style::Plain, "\n"@)]
}

fn write_section(out: &mut Vec<Run>, label: &str)
    ensures
        runs(final(out)@) == runs(old(out)@) + section(label@),
{
    let ghost first = runs(out@);
    let mut part: String = "── ".to_owned();
    part.append(label);
    part.append(" ──");
    say(out, Style::Bold, part.as_str());
    say(out, Style::Plain, "\n");
    assert(runs(out@) =~= first + section(label@));
}

/// What is said of failed lookups.
pub open spec fn failed_note(total: nat, failed: nat, end: Seq<char>) -> Seq<(Style, Seq<char>)> {
    if failed == 0 {
        seq![]
    } else {
        seq![
            (Style::Plain, "  "@),
            (Style::Yellow, "⚠"@),
            (
                Style::Plain,
                " Checked "@ + chars::decimal((total - failed) as nat) + "/"@ + chars::decimal(
                    total,
                ) + " dependencies successfully ("@ + chars::decimal(failed) + " failed lookups)."@
                    + end,
            ),
        ]
    }
}

fn write_failed_note(out: &mut Vec<Run>, total: usize, failed: usize, end: &str)
    requires
        failed <= total,
    ensures
        runs(final(out)@) == runs(old(out)@) + failed_note(total as nat, failed as nat, end@),
{
    let ghost first = runs(out@);
    if failed > 0 {
        let good: String = text::decimal((total - failed) as u64);
        let whole: String = text::decimal(total as u64);
        let bad: String = text::decimal(failed as u64);
        let mut part: String = " Checked ".to_owned();
        part.append(good.as_str());
        part.append("/");
        part.append(whole.as_str());
        part.append(" dependencies successfully (");
        part.append(bad.as_str());
        part.append(" failed lookups).");
        part.append(end);
        say(out, Style::Plain, "  ");
        say(out, Style::Yellow, "⚠");
        say(out, Style::Plain, part.as_str());
    }
    assert(runs(out@) =~= first + failed_note(total as nat, failed as nat, end@));
}

/// One yellow line.
pub open spec fn warning(message: Seq<char>) -> Seq<(Style, Seq<char>)> {
    seq![(Style::Yellow, message), (Style::Plain, "\n"@)]
}

fn warn(message: &str) -> (r: Vec<Run>)
    ensures
        runs(r@) == warning(message@),
{
    let mut out: Vec<Run> = Vec::new();
    assert(runs(out@) =~= seq![]);
    say(&mut out, Style::Yellow, message);
    say(&mut out, Style::Plain, "\n");
    assert(runs(out@) =~= warning(message@));
    out
}

/// What is said where there is no manifest.
pub fn nothing_detected() -> (r: Vec<Run>)
    ensures
        runs(r@) == warning("No supported dependency files detected in the current directory."@),
{
    warn("No supported dependency files detected in the current directory.")
}

/// The heading of a manifest.
pub fn manifest_heading(label: &str) -> (r: Vec<Run>)
    ensures
        runs(r@) == section(label@),
{
    let mut out: Vec<Run> = Vec::new();
    write_section(&mut out, label);
    assert(runs(out@) =~= section(label@));
    out
}

/// What `check` says of a manifest under its heading.
pub fn check_section(checked: &Checked) -> (r: Vec<Run>)
    requires
        checked.failed <= checked.total,
    ensures
        runs(r@) == table(deps(checked.deps@)) + failed_note(
            checked.total as nat,
            checked.failed as nat,
            "\n\n"@,
        ),
{
    let mut out: Vec<Run> = Vec::new();
    write_table(&mut out, &checked.deps);
    write_failed_note(&mut out, checked.total, checked.failed, "\n\n");
    assert(runs(out@) =~= table(deps(checked.deps@)) + failed_note(
        checked.total as nat,
        checked.failed as nat,
        "\n\n"@,
    ));
    out
}

/// What `list` says of a manifest under its heading.
pub fn list_section(items: &Vec<Dependency>) -> (r: Vec<Run>)
    ensures
        runs(r@) == listing(deps(items@)),
{
    let mut out: Vec<Run> = Vec::new();
    write_listing(&mut out, items);
    assert(runs(out@) =~= listing(deps(items@)));
    out
}

/// What `update` says of a manifest before anything is selected.
pub fn update_section(label: &str, checked: &Checked) -> (r: Vec<Run>)
    requires
        checked.failed <= checked.total,
    ensures
        runs(r@) == section(label@) + failed_note(
            checked.total as nat,
            checked.failed as nat,
            "\n"@,
        ) + table(deps(checked.deps@)),
{
    let mut out: Vec<Run> = Vec::new();
    write_section(&mut out, label);
    write_failed_note(&mut out, checked.total, checked.failed, "\n");
    write_table(&mut out, &checked.deps);
    assert(runs(out@) =~= section(label@) + failed_note(
        checked.total as nat,
        checked.failed as nat,
        "\n"@,
    ) + table(deps(checked.deps@)));
    out
}

/// What labelled dependencies say.
pub open spec fn labelled(items: Seq<(String, Vec<Dependency>)>) -> Seq<(Seq<char>, Seq<Dep>)> {
    items.map_values(|p: (String, Vec<Dependency>)| (p.0@, deps(p.1@)))
}

/// What checked manifests say.
pub open spec fn checked_deps(items: Seq<Checked>) -> Seq<Seq<Dep>> {
    items.map_values(|c: Checked| deps(c.deps@))
}

/// The manifests with updates, and their updates.
pub open spec fn candidates(labels: Seq<Seq<char>>, items: Seq<Seq<Dep>>) -> Seq<
    (Seq<char>, Seq<Dep>),
>
    decreases items.len(),
{
    if items.len() == 0 {
        seq![]
    } else {
        let before = candidates(labels, items.drop_last());
        let mine = items.last().filter(updatable());
        if mine.len() == 0 {
            before
        } else {
            before.push((labels[items.len() - 1], mine))
        }
    }
}

/// What a report can be made of: the manifests with updates, and their updates.
pub fn report_candidates(labels: &Vec<String>, items: &Vec<Checked>) -> (r: Vec<
    (String, Vec<Dependency>),
>)
    requires
        labels@.len() == items@.len(),
    ensures
        labelled(r@) == candidates(chars::views(labels@), checked_deps(items@)),
{
    let ghost heads = chars::views(labels@);
    let ghost all = checked_deps(items@);
    let mut out: Vec<(String, Vec<Dependency>)> = Vec::new();
    assert(labelled(out@) =~= seq![]);
    for i in 0..items.len()
        invariant
            labels@.len() == items@.len(),
            heads == chars::views(labels@),
            all == checked_deps(items@),
            labelled(out@) == candidates(heads, all.take(i as int)),
    {
        assert(all.take(i + 1).drop_last() =~= all.take(i as int));
        assert(all.take(i + 1).last() == deps(items@[i as int].deps@));
        let mine: Vec<Dependency> = updatable_of(&items[i].deps);
        assert(deps(mine@).len() == mine@.len());
        if mine.len() > 0 {
            let ghost sofar = labelled(out@);
            let ghost new = (labels@[i as int]@, deps(mine@));
            out.push((labels[i].clone(), mine));
            assert(labelled(out@) =~= sofar.push(new));
        }
    }
    assert(all.take(all.len() as int) =~= all);
    out
}

/// What `update` does with a manifest.
#[derive(Debug)]
pub enum UpdateStep {
    /// There is nothing to update.
    Skip,
    /// Update the dependencies of these names.
    Apply(Vec<String>),
    /// Let the user select among these.
    Ask(Vec<Dependency>),
}

/// What an `UpdateStep` says.
pub enum Step {
    Skip,
    Apply(Seq<Seq<char>>),
    Ask(Seq<Dep>),
}

impl View for UpdateStep {
    type V = Step;

    open spec fn view(&self) -> Step {
        match *self {
            UpdateStep::Skip => Step::Skip,
            UpdateStep::Apply(list) => Step::Apply(chars::views(list@)),
            UpdateStep::Ask(items) => Step::Ask(deps(items@)),
        }
    }
}

/// The step that follows a lookup.
pub open spec fn step_for(items: Seq<Dep>, update_all: bool) -> Step {
    let mine = items.filter(updatable());
    if mine.len() == 0 {
        Step::Skip
    } else if update_all {
        Step::Apply(names(mine))
    } else {
        Step::Ask(mine)
    }
}

/// What `update` does with a manifest: all its updates, or those that the user
/// selects.
pub fn update_step(items: &Vec<Dependency>, update_all: bool) -> (r: UpdateStep)
    ensures
        r@ == step_for(deps(items@), update_all),
{
    let mine: Vec<Dependency> = updatable_of(items);
    assert(deps(mine@).len() == mine@.len());
    if mine.len() == 0 {
        UpdateStep::Skip
    } else if update_all {
        UpdateStep::Apply(names_of(&mine))
    } else {
        UpdateStep::Ask(mine)
    }
}

/// The line that explains the keys before anything is selected.
pub fn keys_hint() -> (r: Vec<Run>)
    ensures
        runs(r@) == seq![
            (Style::Plain, "  "@),
            (Style::Dimmed, "keys"@),
            (
                Style::Plain,
                ": r open report, ↑/↓ navigate, Space toggle, a toggle all, Enter confirm\n\n"@,
            ),
        ],
{
    let mut out: Vec<Run> = Vec::new();
    assert(runs(out@) =~= seq![]);
    say(&mut out, Style::Plain, "  ");
    say(&mut out, Style::Dimmed, "keys");
    say(
        &mut out,
        Style::Plain,
        ": r open report, ↑/↓ navigate, Space toggle, a toggle all, Enter confirm\n\n",
    );
    out
}

/// A line with a mark in front.
pub open spec fn marked(indent: Seq<char>, style: Style, mark: Seq<char>, message: Seq<char>) -> Seq<
    (Style, Seq<char>),
> {
    seq![(Style::Plain, indent), (style, mark), (Style::Plain, message)]
}

fn mark_line(indent: &str, style: Style, mark: &str, message: &str) -> (r: Vec<Run>)
    ensures
        runs(r@) == marked(indent@, style, mark@, message@),
{
    let mut out: Vec<Run> = Vec::new();
    assert(runs(out@) =~= seq![]);
    say(&mut out, Style::Plain, indent);
    say(&mut out, style, mark);
    say(&mut out, Style::Plain, message);
    out
}

/// A number between two texts.
pub open spec fn counted(front: Seq<char>, n: nat, back: Seq<char>) -> Seq<char> {
    front + chars::decimal(n) + back
}

fn count_text(front: &str, n: usize, back: &str) -> (r: String)
    ensures
        r@ == counted(front@, n as nat, back@),
{
    let mut out: String = front.to_owned();
    let count: String = text::decimal(n as u64);
    out.append(count.as_str());
    out.append(back);
    out
}

/// What is said once the updates of a manifest have been selected and made.
pub fn update_result(selected: &Vec<String>) -> (r: Vec<Run>)
    ensures
        runs(r@) == if selected@.len() == 0 {
            seq![(Style::Plain, "  No dependencies selected.\n\n"@)]
        } else {
            marked(
                "  "@,
                Style::Green,
                "✓"@,
                counted(" Updated "@, selected@.len(), " dependencies.\n\n"@),
            )
        },
{
    if selected.len() == 0 {
        let mut out: Vec<Run> = Vec::new();
        assert(runs(out@) =~= seq![]);
        say(&mut out, Style::Plain, "  No dependencies selected.\n\n");
        assert(runs(out@) =~= seq![(Style::Plain, "  No dependencies selected.\n\n"@)]);
        return out;
    }
    let message: String = count_text(" Updated ", selected.len(), " dependencies.\n\n");
    mark_line("  ", Style::Green, "✓", message.as_str())
}

/// The dependencies of a manifest that go into a report.
pub open spec fn reported(items: Seq<Dep>, filter: Option<Seq<Seq<char>>>) -> Seq<Dep> {
    items.filter(asked_for(filter)).filter(updatable())
}

/// The dependencies of a manifest that go into a report: those that are asked for
/// and have updates.
pub fn report_entry(items: &Vec<Dependency>, filter: &Option<Vec<String>>) -> (r: Vec<Dependency>)
    ensures
        deps(r@) == reported(deps(items@), filter_of(*filter)),
{
    updatable_of(&filtered(items, filter))
}

/// What `report` says of a manifest before it looks further.
pub fn report_progress(items: &Vec<Dependency>) -> (r: Vec<Run>)
    ensures
        runs(r@) == if items@.len() == 0 {
            marked("  "@, Style::Green, "✓"@, " No upgrade candidates for report.\n\n"@)
        } else {
            marked(
                "  "@,
                Style::Dimmed,
                "•"@,
                counted(" Building detailed report for "@, items@.len(), " dependencies...\n"@),
            )
        },
{
    if items.len() == 0 {
        mark_line("  ", Style::Green, "✓", " No upgrade candidates for report.\n\n")
    } else {
        let message: String = count_text(
            " Building detailed report for ",
            items.len(),
            " dependencies...\n",
        );
        mark_line("  ", Style::Dimmed, "•", message.as_str())
    }
}

/// What `report` says once it is done with a manifest.
pub fn report_done() -> (r: Vec<Run>)
    ensures
        runs(r@) == marked("  "@, Style::Green, "✓"@, " Done.\n\n"@),
{
    mark_line("  ", Style::Green, "✓", " Done.\n\n")
}

/// What `report` says where there is nothing to report.
pub fn nothing_to_report() -> (r: Vec<Run>)
    ensures
        runs(r@) == warning("No upgradable dependencies found, so no report was generated."@),
{
    warn("No upgradable dependencies found, so no report was generated.")
}

/// The lines of paths.
pub open spec fn path_lines(paths: Seq<Seq<char>>) -> Seq<(Style, Seq<char>)> {
    paths.map_values(|p: Seq<char>| (Style::Plain, "  - "@ + p + "\n"@))
}

/// What `report` says once the reports are written.
pub fn report_written(total: usize, paths: &Vec<String>) -> (r: Vec<Run>)
    ensures
        runs(r@) == marked(
            ""@,
            Style::Green,
            "✓"@,
            counted(" Generated report for "@, total as nat, " upgrade candidates:\n"@),
        ) + path_lines(chars::views(paths@)),
{
    let message: String = count_text(" Generated report for ", total, " upgrade candidates:\n");
    let mut out: Vec<Run> = mark_line("", Style::Green, "✓", message.as_str());
    let ghost first = runs(out@);
    let ghost all = path_lines(chars::views(paths@));
    assert(runs(out@) =~= first + all.take(0));
    for i in 0..paths.len()
        invariant
            all == path_lines(chars::views(paths@)),
            runs(out@) == first + all.take(i as int),
    {
        let mut line: String = "  - ".to_owned();
        line.append(paths[i].as_str());
        line.append("\n");
        say(&mut out, Style::Plain, line.as_str());
        assert(all[i as int] == (Style::Plain, line@));
        assert(runs(out@) =~= first + all.take(i + 1));
    }
    assert(all.take(all.len() as int) =~= all);
    out
}

/// What `report` says where no report could be opened.
pub fn report_not_opened() -> (r: Vec<Run>)
    ensures
        runs(r@) == marked(
            ""@,
            Style::Yellow,
            "⚠"@,
            " Could not auto-open report. Open one of the paths above manually.\n"@,
        ),
{
    mark_line(
        "",
        Style::Yellow,
        "⚠",
        " Could not auto-open report. Open one of the paths above manually.\n",
    )
}

/// How many updates there are in all.
pub open spec fn total(items: Seq<(Seq<char>, Seq<Dep>)>) -> nat
    decreases items.len(),
{
    if items.len() == 0 {
        0
    } else {
        total(items.drop_last()) + items.last().1.len()
    }
}

/// How many updates there are in all, where that many can be counted.
pub fn count_candidates(items: &Vec<(String, Vec<Dependency>)>) -> (r: Option<usize>)
    ensures
        r == if total(labelled(items@)) <= usize::MAX {
            Some(total(labelled(items@)) as usize)
        } else {
            None
        },
{
    let ghost all = labelled(items@);
    let mut n: usize = 0;
    for i in 0..items.len()
        invariant
            all == labelled(items@),
            n == total(all.take(i as int)),
    {
        assert(all.take(i + 1).drop_last() =~= all.take(i as int));
        assert(all.take(i + 1).last().1.len() == items@[i as int].1@.len());
        match n.checked_add(items[i].1.len()) {
            Some(m) => {
                n = m;
            },
            None => {
                proof {
                    lemma_total_grows(all, i + 1);
                }
                return None;
            },
        }
    }
    assert(all.take(all.len() as int) =~= all);
    Some(n)
}

proof fn lemma_total_grows(items: Seq<(Seq<char>, Seq<Dep>)>, n: int)
    requires
        0 <= n <= items.len(),
    ensures
        total(items.take(n)) <= total(items),
    decreases items.len() - n,
{
    if n < items.len() {
        assert(items.take(n + 1).drop_last() =~= items.take(n));
        lemma_total_grows(items, n + 1);
    } else {
        assert(items.take(n) =~= items);
    }
}

/// The name, without an extension, of a report that is made while selecting.
pub fn report_base(millis: u64) -> (r: String)
    ensures
        r@ == "ruckup-update-report-"@ + chars::decimal(millis as nat),
{
    let mut out: String = "ruckup-update-report-".to_owned();
    let count: String = text::decimal(millis);
    out.append(count.as_str());
    out
}

/// What came of a report that was asked for while selecting: nothing where there
/// was nothing to report, else where it is and whether it was opened.
pub open spec fn report_message(count: nat, path: Option<Seq<char>>, opened: bool) -> Seq<
    (Style, Seq<char>),
> {
    if count == 0 {
        marked(""@, Style::Yellow, "⚠"@, " no upgrade candidates available for report"@)
    } else {
        match path {
            Some(p) => if opened {
                marked(
                    ""@,
                    Style::Green,
                    "✓"@,
                    counted(" opened upgrade report ("@, count, " candidates): "@ + p),
                )
            } else {
                marked(
                    ""@,
                    Style::Yellow,
                    "⚠"@,
                    counted(
                        " generated upgrade report ("@,
                        count,
                        " candidates): "@ + p + " (auto-open failed)"@,
                    ),
                )
            },
            None => marked(
                ""@,
                Style::Green,
                "✓"@,
                counted(" generated upgrade report ("@, count, " candidates)"@),
            ),
        }
    }
}

/// What came of a report that was asked for while selecting.
pub fn report_status(count: usize, path: Option<&str>, opened: bool) -> (r: Vec<Run>)
    ensures
        runs(r@) == report_message(
            count as nat,
            match path {
                Some(p) => Some(p@),
                None => None,
            },
            opened,
        ),
{
    if count == 0 {
        return mark_line("", Style::Yellow, "⚠", " no upgrade candidates available for report");
    }
    match path {
        Some(p) => {
            let mut back: String = " candidates): ".to_owned();
            back.append(p);
            if opened {
                let message: String = count_text(" opened upgrade report (", count, back.as_str());
                mark_line("", Style::Green, "✓", message.as_str())
            } else {
                back.append(" (auto-open failed)");
                let message: String = count_text(
                    " generated upgrade report (",
                    count,
                    back.as_str(),
                );
                mark_line("", Style::Yellow, "⚠", message.as_str())
            }
        },
        None => {
            let message: String = count_text(" generated upgrade report (", count, " candidates)");
            mark_line("", Style::Green, "✓", message.as_str())
        },
    }
}

/// Every dependency passes where nothing is asked for, and the empty text asks for
/// every dependency.
pub proof fn law_empty_filters_keep_everything(items: Seq<Dep>)
    ensures
        items.filter(asked_for(None)) == items,
        items.filter(asked_for(Some(seq![""@]))) == items,
    decreases items.len(),
{
    reveal(Seq::filter);
    reveal_strlit("");
    if items.len() > 0 {
        law_empty_filters_keep_everything(items.drop_last());
        let texts = seq![""@];
        let name = items.last().name;
        chars::lemma_find(name, ""@);
        assert(chars::occurs(name, ""@, 0)) by {
            assert(name.subrange(0, 0) =~= ""@);
        }
        assert(chars::has(name, texts[0]));
        assert(holds_any(texts, name));
        assert(items.drop_last().push(items.last()) =~= items);
    }
}

/// What a report can be made of are labels of manifests with their updates, and
/// none of them is without.
pub proof fn law_candidates_have_updates(labels: Seq<Seq<char>>, items: Seq<Seq<Dep>>, i: int)
    requires
        labels.len() >= items.len(),
        0 <= i < candidates(labels, items).len(),
    ensures
        candidates(labels, items)[i].1.len() > 0,
        exists|j: int|
            0 <= j < items.len() && candidates(labels, items)[i] == (
                labels[j],
                #[trigger] items[j].filter(updatable()),
            ),
    decreases items.len(),
{
    let before = candidates(labels, items.drop_last());
    if i < before.len() {
        law_candidates_have_updates(labels, items.drop_last(), i);
        let j = choose|j: int|
            0 <= j < items.len() - 1 && before[i] == (
                labels[j],
                #[trigger] items.drop_last()[j].filter(updatable()),
            );
        assert(items[j].filter(updatable()) == items.drop_last()[j].filter(updatable()));
    } else {
        assert(items[items.len() - 1].filter(updatable()) == items.last().filter(updatable()));
    }
}

/// A dependency is kept where no texts are given or one of them stands somewhere in its
/// name, and the failed lookups are counted among all.
pub proof fn law_kept_dependencies(items: Seq<Dep>, texts: Option<Seq<Seq<char>>>, d: Dep)
    ensures
        items.filter(asked_for(texts)).contains(d) <==> items.contains(d) && (texts is None
            || exists|i: int, at: int|
            #![trigger chars::occurs(d.name, (texts->0)[i], at)]
            0 <= i < texts->0.len() && 0 <= at && at + (texts->0)[i].len() <= d.name.len()
                && d.name.subrange(at, at + (texts->0)[i].len()) == (texts->0)[i]
                && chars::occurs(d.name, (texts->0)[i], at)),
        items.filter(has_failed()).contains(d) <==> items.contains(d) && d.check_failed,
        reported(items, texts).contains(d) <==> items.filter(asked_for(texts)).contains(d)
            && updatable()(d),
{
    lemma_filtered(items, asked_for(texts));
    lemma_filtered(items, has_failed());
    lemma_filtered(items.filter(asked_for(texts)), updatable());
    if let Some(list) = texts {
        if holds_any(list, d.name) {
            let i = choose|i: int| 0 <= i < list.len() && chars::has(d.name, #[trigger] list[i]);
            chars::lemma_find(d.name, list[i]);
            let at = chars::find(d.name, list[i])->0 as int;
            assert(chars::occurs(d.name, (texts->0)[i], at));
        }
        if exists|i: int, at: int|
            0 <= i < list.len() && #[trigger] chars::occurs(d.name, list[i], at) {
            let (i, at) = choose|i: int, at: int|
                0 <= i < list.len() && #[trigger] chars::occurs(d.name, list[i], at);
            chars::lemma_find(d.name, list[i]);
            assert(chars::has(d.name, list[i]));
        }
    }
}

/// A manifest is reported on where it has a dependency with an update, with all of
/// these under its label.
pub proof fn law_manifests_reported(labels: Seq<Seq<char>>, items: Seq<Seq<Dep>>, j: int)
    requires
        labels.len() >= items.len(),
        0 <= j < items.len(),
        exists|i: int| 0 <= i < items[j].len() && updatable()(#[trigger] items[j][i]),
    ensures
        candidates(labels, items).contains((labels[j], items[j].filter(updatable()))),
    decreases items.len(),
{
    let front = items.drop_last();
    let n = items.len() - 1;
    let mine = items[j].filter(updatable());
    if j < n {
        assert(front[j] == items[j]);
        law_manifests_reported(labels, front, j);
        let before = candidates(labels, front);
        let k = choose|k: int| 0 <= k < before.len() && before[k] == (labels[j], mine);
        assert(candidates(labels, items)[k] == (labels[j], mine));
    } else {
        let i = choose|i: int| 0 <= i < items[j].len() && updatable()(#[trigger] items[j][i]);
        lemma_filtered(items[j], updatable());
        assert(items[j].contains(items[j][i]));
        assert(mine.contains(items[j][i]));
        assert(mine.len() > 0);
        let all = candidates(labels, items);
        assert(all[all.len() - 1] == (labels[j], mine));
    }
}

/// Without an update nothing is done. With one, those that have updates are applied by
/// their names or asked for, and no others.
pub proof fn law_update_step(items: Seq<Dep>, update_all: bool)
    ensures
        ({
            let r = step_for(items, update_all);
            let some = exists|i: int|
                0 <= i < items.len() && (#[trigger] items[i]).latest is Some && !items[i].satisfied;
            &&& r is Skip <==> !some
            &&& r is Apply <==> some && update_all
            &&& r is Ask <==> some && !update_all
            &&& r is Apply ==> forall|name: Seq<char>| #[trigger]
                r->Apply_0.contains(name) <==> exists|i: int|
                    0 <= i < items.len() && (#[trigger] items[i]).name == name
                        && items[i].latest is Some && !items[i].satisfied
            &&& r is Ask ==> forall|d: Dep| #[trigger]
                r->Ask_0.contains(d) <==> items.contains(d) && d.latest is Some && !d.satisfied
        }),
{
    let mine = items.filter(updatable());
    let r = step_for(items, update_all);
    lemma_filtered(items, updatable());
    if mine.len() > 0 {
        assert(mine.contains(mine[0]));
        let i = choose|i: int| 0 <= i < items.len() && items[i] == mine[0];
        assert(items[i].latest is Some && !items[i].satisfied);
    }
    assert forall|i: int|
        0 <= i < items.len() && (#[trigger] items[i]).latest is Some && !items[i].satisfied implies mine.contains(
        items[i],
    ) by {
        assert(items.contains(items[i]));
    }
    if r is Apply {
        let list = r->Apply_0;
        assert forall|name: Seq<char>| #[trigger] list.contains(name) <==> exists|i: int|
            0 <= i < items.len() && (#[trigger] items[i]).name == name && items[i].latest is Some
                && !items[i].satisfied by {
            if list.contains(name) {
                let k = choose|k: int| 0 <= k < list.len() && list[k] == name;
                assert(mine[k].name == name);
                assert(mine.contains(mine[k]));
                let i = choose|i: int| 0 <= i < items.len() && items[i] == mine[k];
                assert(items[i].name == name);
            }
            if exists|i: int|
                0 <= i < items.len() && (#[trigger] items[i]).name == name && items[i].latest is Some
                    && !items[i].satisfied {
                let i = choose|i: int|
                    0 <= i < items.len() && (#[trigger] items[i]).name == name
                        && items[i].latest is Some && !items[i].satisfied;
                assert(mine.contains(items[i]));
                let k = choose|k: int| 0 <= k < mine.len() && mine[k] == items[i];
                assert(list[k] == name);
            }
        }
    }
}

/// The number of candidates is that of all manifests together.
pub proof fn law_total(a: Seq<(Seq<char>, Seq<Dep>)>, b: Seq<(Seq<char>, Seq<Dep>)>, one: (Seq<char>, Seq<Dep>))
    ensures
        total(a + b) == total(a) + total(b),
        total(seq![one]) == one.1.len(),
    decreases b.len(),
{
    assert(seq![one].drop_last() =~= seq![]);
    assert(total(seq![]) == 0);
    if b.len() == 0 {
        assert(a + b =~= a);
    } else {
        law_total(a, b.drop_last(), one);
        assert((a + b).drop_last() =~= a + b.drop_last());
    }
}

/// A note says how many lookups of how many were successful, and how many failed, where
/// any did.
pub proof fn law_failed_note(total: nat, failed: nat, end: Seq<char>)
    requires
        failed <= total,
    ensures
        failed == 0 ==> failed_note(total, failed, end).len() == 0,
        failed > 0 ==> failed_note(total, failed, end).len() == 3 && failed_note(
            total,
            failed,
            end,
        )[2].1 == " Checked "@ + chars::decimal((total - failed) as nat) + "/"@ + chars::decimal(
            total,
        ) + " dependencies successfully ("@ + chars::decimal(failed) + " failed lookups)."@ + end,
{
}

} // verus!
