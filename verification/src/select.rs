//! The menu in which dependencies are selected.
use vstd::prelude::*;
use vstd::string::*;
use crate::chars;
use crate::console::{Run, Style, lines, runs, say, say_all};
use crate::plugin::{Dep, Dependency, deps};
use crate::table::{latest_of, latest_text, names};
use crate::text;

verus! {

/// A key that was pressed.
#[derive(Debug, Clone, Copy, PartialEq, Eq, Structural)]
pub enum Press {
    ArrowUp,
    ArrowDown,
    Enter,
    Escape,
    Char(char),
    Other,
}

/// What follows a key.
#[derive(Debug)]
pub enum Action {
    /// Show the menu and wait for the next key.
    Show,
    /// Open a report, then show the menu with what came of it.
    Report,
    /// The selection is made; it is empty where the menu was left.
    Finish(Vec<String>),
}

/// What an `Action` asks for.
pub enum Asked {
    Show,
    Report,
    Finish(Seq<Seq<char>>),
}

impl View for Action {
    type V = Asked;

    open spec fn view(&self) -> Asked {
        match *self {
            Action::Show => Asked::Show,
            Action::Report => Asked::Report,
            Action::Finish(names) => Asked::Finish(chars::views(names@)),
        }
    }
}

/// A menu of dependencies.
#[derive(Debug)]
pub struct Menu {
    pub cursor: usize,
    pub selected: Vec<bool>,
    /// What the last key has brought to say.
    pub status: Option<Vec<Run>>,
}

/// What a `Menu` shows.
#[verifier::ext_equal]
pub struct Shown {
    pub cursor: int,
    pub selected: Seq<bool>,
    pub status: Option<Seq<(Style, Seq<char>)>>,
}

impl View for Menu {
    type V = Shown;

    open spec fn view(&self) -> Shown {
        Shown {
            cursor: self.cursor as int,
            selected: self.selected@,
            status: match self.status {
                Some(s) => Some(runs(s@)),
                None => None,
            },
        }
    }
}

impl Shown {
    /// A menu of `count` entries with its cursor on one of them.
    pub open spec fn of(self, count: nat) -> bool {
        &&& self.selected.len() == count
        &&& 0 <= self.cursor
        &&& self.cursor < count || count == 0 && self.cursor == 0
    }

    pub open spec fn start(count: nat) -> Shown {
        Shown { cursor: 0, selected: Seq::new(count, |i: int| false), status: None }
    }
}

pub open spec fn is_up(key: Press) -> bool {
    key == Press::ArrowUp || key == Press::Char('k')
}

pub open spec fn is_down(key: Press) -> bool {
    key == Press::ArrowDown || key == Press::Char('j')
}

pub open spec fn is_all(key: Press) -> bool {
    key == Press::Char('a') || key == Press::Char('A')
}

pub open spec fn is_report(key: Press) -> bool {
    key == Press::Char('r') || key == Press::Char('R')
}

pub open spec fn is_quit(key: Press) -> bool {
    key == Press::Escape || key == Press::Char('q')
}

/// The names of the entries that are selected.
pub open spec fn chosen(all: Seq<Seq<char>>, selected: Seq<bool>) -> Seq<Seq<char>>
    decreases selected.len(),
{
    if selected.len() == 0 {
        seq![]
    } else {
        let before = chosen(all, selected.drop_last());
        if selected.last() {
            before.push(all[selected.len() - 1])
        } else {
            before
        }
    }
}

/// The menu after a key.
pub open spec fn after(menu: Shown, all: Seq<Seq<char>>, key: Press) -> Shown {
    let count = menu.selected.len() as int;
    let quiet = Shown { status: None, ..menu };
    if is_up(key) {
        Shown {
            cursor: if menu.cursor == 0 {
                if count == 0 {
                    0
                } else {
                    count - 1
                }
            } else {
                menu.cursor - 1
            },
            ..quiet
        }
    } else if is_down(key) && count > 0 {
        Shown {
            cursor: if menu.cursor + 1 == count {
                0
            } else {
                menu.cursor + 1
            },
            ..quiet
        }
    } else if key == Press::Char(' ') && count > 0 {
        Shown {
            selected: menu.selected.update(menu.cursor, !menu.selected[menu.cursor]),
            ..quiet
        }
    } else if is_all(key) {
        Shown { selected: Seq::new(count as nat, |i: int| menu.selected.contains(false)), ..quiet }
    } else if key == Press::Enter && chosen(all, menu.selected).len() == 0 {
        Shown { status: Some(seq![(Style::Plain, "No dependencies selected."@)]), ..quiet }
    } else {
        quiet
    }
}

/// What follows a key.
pub open spec fn asked(menu: Shown, all: Seq<Seq<char>>, key: Press) -> Asked {
    let picked = chosen(all, menu.selected);
    if is_report(key) {
        Asked::Report
    } else if is_quit(key) {
        Asked::Finish(seq![])
    } else if key == Press::Enter && picked.len() > 0 {
        Asked::Finish(picked)
    } else {
        Asked::Show
    }
}

impl Menu {
    /// A menu in which nothing is selected.
    pub fn new(count: usize) -> (r: Menu)
        ensures
            r@ == Shown::start(count as nat),
            r@.of(count as nat),
    {
        let mut selected: Vec<bool> = Vec::new();
        for i in 0..count
            invariant
                selected@ == Seq::new(i as nat, |j: int| false),
        {
            selected.push(false);
            assert(selected@ =~= Seq::new((i + 1) as nat, |j: int| false));
        }
        Menu { cursor: 0, selected, status: None }
    }

    fn is_any_clear(&self) -> (r: bool)
        ensures
            r == self.selected@.contains(false),
    {
        for i in 0..self.selected.len()
            invariant
                forall|j: int| 0 <= j < i ==> self.selected@[j],
        {
            if !self.selected[i] {
                return true;
            }
        }
        false
    }

    fn fill(&mut self, value: bool)
        ensures
            final(self).selected@ == Seq::new(old(self).selected@.len(), |i: int| value),
            final(self).cursor == old(self).cursor,
            final(self).status == old(self).status,
    {
        let count: usize = self.selected.len();
        let mut all: Vec<bool> = Vec::new();
        for i in 0..count
            invariant
                all@ == Seq::new(i as nat, |j: int| value),
        {
            all.push(value);
            assert(all@ =~= Seq::new((i + 1) as nat, |j: int| value));
        }
        self.selected = all;
    }

    fn chosen_names(&self, items: &Vec<Dependency>) -> (r: Vec<String>)
        requires
            self.selected@.len() == items@.len(),
        ensures
            chars::views(r@) == chosen(names(deps(items@)), self.selected@),
    {
        let ghost all = names(deps(items@));
        let ghost marks = self.selected@;
        let mut out: Vec<String> = Vec::new();
        assert(chars::views(out@) =~= seq![]);
        for i in 0..items.len()
            invariant
                all == names(deps(items@)),
                marks == self.selected@,
                marks.len() == items@.len(),
                chars::views(out@) == chosen(all, marks.take(i as int)),
        {
            assert(marks.take(i + 1).drop_last() =~= marks.take(i as int));
            if self.selected[i] {
                let ghost sofar = chars::views(out@);
                out.push(items[i].name.clone());
                assert(chars::views(out@) =~= sofar.push(all[i as int]));
            }
        }
        assert(marks.take(marks.len() as int) =~= marks);
        out
    }

    /// Takes a key, and says what follows it.
    pub fn press(&mut self, items: &Vec<Dependency>, key: Press) -> (r: Action)
        requires
            old(self)@.of(items@.len()),
        ensures
            final(self)@ == after(old(self)@, names(deps(items@)), key),
            final(self)@.of(items@.len()),
            r@ == asked(old(self)@, names(deps(items@)), key),
    {
        let ghost before = self@;
        let ghost all = names(deps(items@));
        self.status = None;
        let count: usize = items.len();
        match key {
            Press::ArrowUp | Press::Char('k') => {
                if self.cursor == 0 {
                    self.cursor = if count == 0 {
                        0
                    } else {
                        count - 1
                    };
                } else {
                    self.cursor = self.cursor - 1;
                }
                Action::Show
            },
            Press::ArrowDown | Press::Char('j') => {
                if count > 0 {
                    self.cursor = if self.cursor + 1 == count {
                        0
                    } else {
                        self.cursor + 1
                    };
                }
                Action::Show
            },
            Press::Char(' ') => {
                if count > 0 {
                    let value: bool = !self.selected[self.cursor];
                    self.selected.set(self.cursor, value);
                }
                Action::Show
            },
            Press::Char('a') | Press::Char('A') => {
                let value: bool = self.is_any_clear();
                self.fill(value);
                assert(self@ =~= after(before, all, key));
                Action::Show
            },
            Press::Char('r') | Press::Char('R') => Action::Report,
            Press::Enter => {
                let picked: Vec<String> = self.chosen_names(items);
                assert(chars::views(picked@).len() == picked@.len());
                if picked.len() == 0 {
                    let mut message: Vec<Run> = Vec::new();
                    assert(runs(message@) =~= seq![]);
                    say(&mut message, Style::Plain, "No dependencies selected.");
                    assert(runs(message@) =~= seq![
                        (Style::Plain, "No dependencies selected."@),
                    ]);
                    self.status = Some(message);
                    Action::Show
                } else {
                    Action::Finish(picked)
                }
            },
            Press::Escape | Press::Char('q') => {
                let none: Vec<String> = Vec::new();
                assert(chars::views(none@) =~= seq![]);
                Action::Finish(none)
            },
            _ => Action::Show,
        }
    }

    /// Shows what came of a report, and how long it took.
    pub fn show_report(&mut self, message: &Vec<Run>, millis: u64)
        ensures
            final(self)@ == (Shown {
                status: Some(timed(runs(message@), millis as nat)),
                ..old(self)@
            }),
    {
        let mut out: Vec<Run> = Vec::new();
        assert(runs(out@) =~= seq![]);
        say_all(&mut out, message);
        let mut part: String = " (".to_owned();
        let count: String = text::decimal(millis);
        part.append(count.as_str());
        part.append(" ms)");
        say(&mut out, Style::Plain, part.as_str());
        assert(runs(out@) =~= timed(runs(message@), millis as nat));
        self.status = Some(out);
    }

    /// The lines of the menu.
    pub fn render(&self, label: &str, items: &Vec<Dependency>) -> (r: Vec<Vec<Run>>)
        requires
            self@.of(items@.len()),
        ensures
            lines(r@) == menu_lines(self@, label@, deps(items@)),
    {
        let mut out: Vec<Vec<Run>> = Vec::new();
        assert(lines(out@) =~= seq![]);
        write_title(&mut out, label);
        write_keys(&mut out);
        write_status(&mut out, &self.status);
        let ghost first = lines(out@);
        let ghost all = deps(items@);
        assert(first =~= seq![title(label@), keys_line()] + status_lines(self@.status));
        assert(lines(out@) =~= first + entry_lines(self@, all.take(0)));
        for i in 0..items.len()
            invariant
                self@.of(items@.len()),
                all == deps(items@),
                lines(out@) == first + entry_lines(self@, all.take(i as int)),
        {
            let ghost sofar = entry_lines(self@, all.take(i as int));
            assert(all.take(i + 1).drop_last() =~= all.take(i as int));
            assert(all.take(i + 1).last() == items@[i as int]@);
            write_entry(&mut out, &items[i], i == self.cursor, self.selected[i]);
            assert(lines(out@) =~= first + sofar.push(
                entry(items@[i as int]@, i == self@.cursor, self@.selected[i as int]),
            ));
        }
        assert(all.take(all.len() as int) =~= all);
        out
    }
}

/// A message, and how long it took.
pub open spec fn timed(message: Seq<(Style, Seq<char>)>, millis: nat) -> Seq<(Style, Seq<char>)> {
    message.push((Style::Plain, " ("@ + chars::decimal(millis) + " ms)"@))
}

/// The heading of the menu.
pub open spec fn title(label: Seq<char>) -> Seq<(Style, Seq<char>)> {
    seq![(Style::Plain, "Select dependencies to update for "@ + label)]
}

/// The line that explains the keys.
pub open spec fn keys_line() -> Seq<(Style, Seq<char>)> {
    seq![
        (Style::Plain, "  "@),
        (Style::Dimmed, "keys"@),
        (
            Style::Plain,
            ": r open report, ↑/↓ navigate, Space toggle, a toggle all, Enter confirm, Esc skip"@,
        ),
    ]
}

/// The line of what the last key has brought to say.
pub open spec fn status_lines(status: Option<Seq<(Style, Seq<char>)>>) -> Seq<
    Seq<(Style, Seq<char>)>,
> {
    match status {
        Some(message) => seq![seq![(Style::Plain, "  "@)] + message],
        None => seq![],
    }
}

/// The line of an entry.
pub open spec fn entry(d: Dep, here: bool, checked: bool) -> Seq<(Style, Seq<char>)> {
    let marker = if here {
        ">"@
    } else {
        " "@
    };
    let check = if checked {
        "x"@
    } else {
        " "@
    };
    seq![
        (
            Style::Plain,
            "  "@ + marker + " ["@ + check + "] "@ + d.name + " "@ + d.current + " → "@
                + latest_text(d),
        ),
    ]
}

/// The lines of the entries.
pub open spec fn entry_lines(menu: Shown, items: Seq<Dep>) -> Seq<Seq<(Style, Seq<char>)>>
    decreases items.len(),
{
    if items.len() == 0 {
        seq![]
    } else {
        let at = items.len() - 1;
        entry_lines(menu, items.drop_last()).push(
            entry(items.last(), at == menu.cursor, menu.selected[at]),
        )
    }
}

/// The lines of the menu.
pub open spec fn menu_lines(menu: Shown, label: Seq<char>, items: Seq<Dep>) -> Seq<
    Seq<(Style, Seq<char>)>,
> {
    seq![title(label), keys_line()] + status_lines(menu.status) + entry_lines(menu, items)
}

fn write_line(out: &mut Vec<Vec<Run>>, line: Vec<Run>)
    ensures
        lines(final(out)@) == lines(old(out)@).push(runs(line@)),
{
    let ghost first = lines(out@);
    out.push(line);
    assert(lines(out@) =~= first.push(runs(line@)));
}

fn write_title(out: &mut Vec<Vec<Run>>, label: &str)
    ensures
        lines(final(out)@) == lines(old(out)@).push(title(label@)),
{
    let mut part: String = "Select dependencies to update for ".to_owned();
    part.append(label);
    let mut line: Vec<Run> = Vec::new();
    assert(runs(line@) =~= seq![]);
    say(&mut line, Style::Plain, part.as_str());
    assert(runs(line@) =~= title(label@));
    write_line(out, line);
}

fn write_keys(out: &mut Vec<Vec<Run>>)
    ensures
        lines(final(out)@) == lines(old(out)@).push(keys_line()),
{
    let mut line: Vec<Run> = Vec::new();
    assert(runs(line@) =~= seq![]);
    say(&mut line, Style::Plain, "  ");
    say(&mut line, Style::Dimmed, "keys");
    say(
        &mut line,
        Style::Plain,
        ": r open report, ↑/↓ navigate, Space toggle, a toggle all, Enter confirm, Esc skip",
    );
    assert(runs(line@) =~= keys_line());
    write_line(out, line);
}

fn write_status(out: &mut Vec<Vec<Run>>, status: &Option<Vec<Run>>)
    ensures
        lines(final(out)@) == lines(old(out)@) + status_lines(
            match *status {
                Some(s) => Some(runs(s@)),
                None => None,
            },
        ),
{
    let ghost first = lines(out@);
    if let Some(message) = status {
        let mut line: Vec<Run> = Vec::new();
        assert(runs(line@) =~= seq![]);
        say(&mut line, Style::Plain, "  ");
        say_all(&mut line, message);
        assert(runs(line@) =~= seq![(Style::Plain, "  "@)] + runs(message@));
        write_line(out, line);
        assert(lines(out@) =~= first + status_lines(Some(runs(message@))));
    } else {
        assert(lines(out@) =~= first + seq![]);
    }
}

fn write_entry(out: &mut Vec<Vec<Run>>, d: &Dependency, here: bool, checked: bool)
    ensures
        lines(final(out)@) == lines(old(out)@).push(entry(d@, here, checked)),
{
    let mut part: String = "  ".to_owned();
    if here {
        part.append(">");
    } else {
        part.append(" ");
    }
    part.append(" [");
    if checked {
        part.append("x");
    } else {
        part.append(" ");
    }
    part.append("] ");
    part.append(d.name.as_str());
    part.append(" ");
    part.append(d.current_version.as_str());
    part.append(" → ");
    part.append(latest_of(d));
    let mut line: Vec<Run> = Vec::new();
    assert(runs(line@) =~= seq![]);
    say(&mut line, Style::Plain, part.as_str());
    assert(runs(line@) =~= entry(d@, here, checked));
    write_line(out, line);
}

/// Going up and then down leaves the cursor where it was, and so does going down
/// and then up.
pub proof fn law_up_and_down_are_opposites(
    menu: Shown,
    all: Seq<Seq<char>>,
    up: Press,
    down: Press,
)
    requires
        menu.of(all.len()),
        is_up(up),
        is_down(down),
    ensures
        after(after(menu, all, up), all, down) == (Shown { status: None, ..menu }),
        after(after(menu, all, down), all, up) == (Shown { status: None, ..menu }),
{
}

/// Toggling an entry twice leaves the selection as it was.
pub proof fn law_toggling_twice_changes_nothing(menu: Shown, all: Seq<Seq<char>>)
    requires
        menu.of(all.len()),
    ensures
        after(after(menu, all, Press::Char(' ')), all, Press::Char(' ')) == (Shown {
            status: None,
            ..menu
        }),
{
    let twice = after(after(menu, all, Press::Char(' ')), all, Press::Char(' '));
    assert(twice.selected =~= menu.selected);
}

/// Where an entry is not selected, toggling all selects all, and toggling all once
/// more selects none.
pub proof fn law_toggling_all(menu: Shown, all: Seq<Seq<char>>, key: Press)
    requires
        menu.of(all.len()),
        menu.selected.contains(false),
        is_all(key),
    ensures
        ({
            let once = after(menu, all, key);
            let twice = after(once, all, key);
            &&& forall|i: int| 0 <= i < all.len() ==> #[trigger] once.selected[i]
            &&& forall|i: int| 0 <= i < all.len() ==> !#[trigger] twice.selected[i]
        }),
{
}

/// What is selected are entries of the menu, in their order: all of them where all
/// are selected, and nothing where none is.
pub proof fn law_chosen_are_the_selected(all: Seq<Seq<char>>, selected: Seq<bool>)
    requires
        selected.len() <= all.len(),
    ensures
        !selected.contains(false) ==> chosen(all, selected) == all.take(selected.len() as int),
        !selected.contains(true) <==> chosen(all, selected).len() == 0,
        forall|i: int|
            0 <= i < selected.len() && selected[i] ==> chosen(all, selected).contains(
                #[trigger] all[i],
            ),
    decreases selected.len(),
{
    if selected.len() == 0 {
        assert(chosen(all, selected) =~= all.take(0));
    } else {
        let init = selected.drop_last();
        let last = selected.len() - 1;
        let before = chosen(all, init);
        law_chosen_are_the_selected(all, init);
        assert(selected =~= init.push(selected.last()));
        assert(selected[last] == selected.last());
        if selected.last() {
            assert(chosen(all, selected)[before.len() as int] == all[last]);
            assert(all.take(last + 1) =~= all.take(last).push(all[last]));
        }
        assert forall|i: int| 0 <= i < init.len() && init[i] implies selected[i] by {}
        assert(init.contains(false) ==> selected.contains(false)) by {
            if init.contains(false) {
                let i = init.index_of(false);
                assert(selected[i] == false);
            }
        }
        assert(init.contains(true) ==> selected.contains(true)) by {
            if init.contains(true) {
                let i = init.index_of(true);
                assert(selected[i] == true);
            }
        }
        if !selected.last() && selected.contains(true) {
            let i = selected.index_of(true);
            assert(init[i]);
        }
        assert forall|i: int| 0 <= i < selected.len() && selected[i] implies chosen(
            all,
            selected,
        ).contains(#[trigger] all[i]) by {
            if i < last {
                assert(init[i]);
                let j = before.index_of(all[i]);
                assert(chosen(all, selected)[j] == all[i]);
            }
        }
    }
}

/// The menu is only left with a selection, or with a key that leaves it.
pub proof fn law_confirmed_selection_is_not_empty(menu: Shown, all: Seq<Seq<char>>, key: Press)
    requires
        menu.of(all.len()),
    ensures
        asked(menu, all, key) matches Asked::Finish(picked) && picked.len() == 0 ==> is_quit(key),
{
}

/// The cursor goes up with the arrow or `k` and down with the arrow or `j`, round the
/// ends. Space changes the entry at the cursor, and no other. No other key moves the
/// cursor.
pub proof fn law_moves(menu: Shown, all: Seq<Seq<char>>, key: Press)
    requires
        menu.of(all.len()),
        all.len() > 0,
    ensures
        ({
            let n = all.len() as int;
            let r = after(menu, all, key);
            let up = key == Press::ArrowUp || key == Press::Char('k');
            let down = key == Press::ArrowDown || key == Press::Char('j');
            &&& up ==> r.cursor == (menu.cursor + n - 1) % n && r.selected == menu.selected
            &&& down ==> r.cursor == (menu.cursor + 1) % n && r.selected == menu.selected
            &&& !up && !down ==> r.cursor == menu.cursor
            &&& key == Press::Char(' ') ==> forall|i: int|
                0 <= i < n ==> #[trigger] r.selected[i] == if i == menu.cursor {
                    !menu.selected[i]
                } else {
                    menu.selected[i]
                }
            &&& key != Press::Char(' ') && key != Press::Char('a') && key != Press::Char('A')
                ==> r.selected == menu.selected
        }),
{
    let n = all.len() as int;
    if menu.cursor == 0 {
        assert((n - 1) % n == n - 1) by (nonlinear_arith)
            requires
                n > 0,
        ;
    } else {
        let c = menu.cursor;
        assert((c + n - 1) % n == c - 1) by (nonlinear_arith)
            requires
                0 < c < n,
        ;
    }
    let c = menu.cursor;
    if c + 1 == n {
        assert((c + 1) % n == 0) by (nonlinear_arith)
            requires
                c + 1 == n,
                n > 0,
        ;
    } else {
        assert((c + 1) % n == c + 1) by (nonlinear_arith)
            requires
                0 <= c,
                c + 1 < n,
        ;
    }
}

/// What a key asks for: `r` the report, escape or `q` to leave with nothing, enter to
/// leave with what is selected, where anything is. All else shows the menu again.
pub proof fn law_answers(menu: Shown, all: Seq<Seq<char>>, key: Press)
    requires
        menu.of(all.len()),
    ensures
        ({
            let r = asked(menu, all, key);
            let some = exists|i: int| 0 <= i < menu.selected.len() && #[trigger] menu.selected[i];
            &&& r == Asked::Report <==> key == Press::Char('r') || key == Press::Char('R')
            &&& key == Press::Escape || key == Press::Char('q') ==> r == Asked::Finish(seq![])
            &&& key == Press::Enter && some ==> r == Asked::Finish(chosen(all, menu.selected))
            &&& key == Press::Enter && !some ==> r == Asked::Show
            &&& r == Asked::Show <==> key != Press::Char('r') && key != Press::Char('R') && key
                != Press::Escape && key != Press::Char('q') && !(key == Press::Enter && some)
            &&& key == Press::Enter && !some ==> after(menu, all, key).status == Some(
                seq![(Style::Plain, "No dependencies selected."@)],
            )
        }),
{
    law_chosen_are_the_selected(all, menu.selected);
    if exists|i: int| 0 <= i < menu.selected.len() && #[trigger] menu.selected[i] {
        let i = choose|i: int| 0 <= i < menu.selected.len() && #[trigger] menu.selected[i];
        assert(menu.selected.contains(true));
    }
    if menu.selected.contains(true) {
        let i = choose|i: int| 0 <= i < menu.selected.len() && menu.selected[i] == true;
        assert(menu.selected[i]);
    }
}

/// What is chosen is what is selected, and nothing else.
pub proof fn law_only_the_selected(all: Seq<Seq<char>>, selected: Seq<bool>, name: Seq<char>)
    requires
        selected.len() <= all.len(),
    ensures
        chosen(all, selected).contains(name) <==> exists|i: int|
            0 <= i < selected.len() && selected[i] && #[trigger] all[i] == name,
    decreases selected.len(),
{
    law_chosen_are_the_selected(all, selected);
    if selected.len() > 0 {
        let front = selected.drop_last();
        let before = chosen(all, front);
        let list = chosen(all, selected);
        let n = selected.len() - 1;
        law_only_the_selected(all, front, name);
        if list.contains(name) {
            let k = choose|k: int| 0 <= k < list.len() && list[k] == name;
            if k < before.len() {
                assert(before[k] == name);
                assert(before.contains(name));
                let i = choose|i: int| 0 <= i < front.len() && front[i] && #[trigger] all[i] == name;
                assert(selected[i]);
                assert(all[i] == name);
            } else {
                assert(selected[n]);
                assert(all[n] == name);
            }
        }
    }
}

proof fn lemma_entry(menu: Shown, items: Seq<Dep>, i: int)
    requires
        0 <= i < items.len(),
    ensures
        entry_lines(menu, items).len() == items.len(),
        entry_lines(menu, items)[i] == entry(items[i], i == menu.cursor, menu.selected[i]),
    decreases items.len(),
{
    let front = items.drop_last();
    if i < front.len() {
        lemma_entry(menu, front, i);
    } else if front.len() > 0 {
        lemma_entry(menu, front, 0);
    } else {
        assert(entry_lines(menu, front).len() == 0);
    }
}

/// The menu shows every dependency on a line of its own, in order: where the cursor is,
/// whether it is selected, its name and its two versions.
pub proof fn law_entries_shown(menu: Shown, label: Seq<char>, items: Seq<Dep>, i: int)
    requires
        0 <= i < items.len(),
    ensures
        ({
            let all = menu_lines(menu, label, items);
            all[all.len() - items.len() + i] == seq![
                (
                    Style::Plain,
                    "  "@ + (if i == menu.cursor {
                        ">"@
                    } else {
                        " "@
                    }) + " ["@ + (if menu.selected[i] {
                        "x"@
                    } else {
                        " "@
                    }) + "] "@ + items[i].name + " "@ + items[i].current + " → "@ + (
                    if items[i].latest is Some {
                        items[i].latest->0
                    } else {
                        "?"@
                    }),
                ),
            ]
        }),
{
    lemma_entry(menu, items, i);
    let head = seq![title(label), keys_line()] + status_lines(menu.status);
    let all = menu_lines(menu, label, items);
    assert(all[head.len() + i] == entry_lines(menu, items)[i]);
    assert(all[all.len() - items.len() + i] == seq![
        (
            Style::Plain,
            "  "@ + (if i == menu.cursor {
                ">"@
            } else {
                " "@
            }) + " ["@ + (if menu.selected[i] {
                "x"@
            } else {
                " "@
            }) + "] "@ + items[i].name + " "@ + items[i].current + " → "@ + latest_text(items[i]),
        ),
    ]);
}

/// The message stands on the line before the entries.
pub proof fn law_message_shown(
    menu: Shown,
    label: Seq<char>,
    items: Seq<Dep>,
    message: Seq<(Style, Seq<char>)>,
)
    requires
        menu.status == Some(message),
        items.len() > 0,
    ensures
        ({
            let all = menu_lines(menu, label, items);
            &&& all.len() == items.len() + 3
            &&& all[2] == seq![(Style::Plain, "  "@)] + message
        }),
{
    lemma_entry(menu, items, 0);
}

} // verus!
