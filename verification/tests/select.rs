use ruckup::console::Run;
use ruckup::plugin::{DepType, Dependency};
use ruckup::select::{Action, Menu, Press};

fn items() -> Vec<Dependency> {
    let mut serde = Dependency::new("serde".to_string(), "1.0".to_string(), DepType::Normal);
    serde.latest_version = Some("2.0".to_string());
    let tokio = Dependency::new("tokio".to_string(), "1.1".to_string(), DepType::Normal);
    vec![serde, tokio]
}

fn plain(lines: &[Vec<Run>]) -> Vec<String> {
    lines
        .iter()
        .map(|line| line.iter().map(|run| run.text.as_str()).collect())
        .collect()
}

#[test]
fn the_menu_shows_its_entries() {
    let items = items();
    let mut menu = Menu::new(2);
    menu.press(&items, Press::Char(' '));
    menu.press(&items, Press::ArrowDown);
    assert_eq!(
        plain(&menu.render("npm", &items)),
        vec![
            "Select dependencies to update for npm",
            "  keys: r open report, ↑/↓ navigate, Space toggle, a toggle all, Enter confirm, Esc skip",
            "    [x] serde 1.0 → 2.0",
            "  > [ ] tokio 1.1 → ?",
        ]
    );
}

#[test]
fn the_cursor_goes_round() {
    let items = items();
    let mut menu = Menu::new(2);
    menu.press(&items, Press::Char('k'));
    assert_eq!(menu.cursor, 1);
    menu.press(&items, Press::Char('j'));
    assert_eq!(menu.cursor, 0);
    let none = Vec::new();
    let mut empty = Menu::new(0);
    empty.press(&none, Press::ArrowUp);
    empty.press(&none, Press::ArrowDown);
    empty.press(&none, Press::Char(' '));
    assert_eq!(empty.cursor, 0);
}

#[test]
fn toggling_twice_changes_nothing() {
    let items = items();
    let mut menu = Menu::new(2);
    menu.press(&items, Press::Char(' '));
    assert_eq!(menu.selected, vec![true, false]);
    menu.press(&items, Press::Char(' '));
    assert_eq!(menu.selected, vec![false, false]);
}

#[test]
fn all_are_toggled() {
    let items = items();
    let mut menu = Menu::new(2);
    menu.press(&items, Press::Char(' '));
    menu.press(&items, Press::Char('a'));
    assert_eq!(menu.selected, vec![true, true]);
    menu.press(&items, Press::Char('A'));
    assert_eq!(menu.selected, vec![false, false]);
}

#[test]
fn a_selection_is_confirmed() {
    let items = items();
    let mut menu = Menu::new(2);
    assert!(matches!(menu.press(&items, Press::Enter), Action::Show));
    assert_eq!(
        plain(&menu.render("npm", &items))[2],
        "  No dependencies selected."
    );
    menu.press(&items, Press::ArrowDown);
    assert_eq!(menu.render("npm", &items).len(), 4);
    menu.press(&items, Press::Char(' '));
    match menu.press(&items, Press::Enter) {
        Action::Finish(names) => assert_eq!(names, vec!["tokio"]),
        _ => panic!("expected a selection"),
    }
}

#[test]
fn the_menu_is_left() {
    let items = items();
    let mut menu = Menu::new(2);
    menu.press(&items, Press::Char('a'));
    assert!(matches!(menu.press(&items, Press::Escape), Action::Finish(names) if names.is_empty()));
    assert!(matches!(menu.press(&items, Press::Char('q')), Action::Finish(names) if names.is_empty()));
    assert!(matches!(menu.press(&items, Press::Char('R')), Action::Report));
    assert!(matches!(menu.press(&items, Press::Other), Action::Show));
}

#[test]
fn the_report_is_timed() {
    let items = items();
    let mut menu = Menu::new(2);
    menu.show_report(&ruckup::commands::report_status(3, Some("a.html"), true), 12);
    assert_eq!(
        plain(&menu.render("npm", &items))[2],
        "  ✓ opened upgrade report (3 candidates): a.html (12 ms)"
    );
}
