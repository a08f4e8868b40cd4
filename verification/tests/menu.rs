//! Menus.
use textfold::cmd::Cmd;
use textfold::doc::DocId;
use textfold::menu::{around, Action, Item, Menu};

fn menu(items: Vec<Item>) -> Menu {
    Menu::new(items, (0, 0))
}

fn item(label: &str, cmd: Cmd) -> Item {
    Item::new(label.to_string(), cmd)
}

#[test]
fn a_menu_opens_on_something_you_can_choose() {
    let m = menu(vec![
        Item::divider(),
        item("cut", Cmd::Cut).enabled(false),
        item("copy", Cmd::Copy),
    ]);
    assert_eq!(m.cursor, 2);
    assert_eq!(m.chosen(), Some(Action::Run(Cmd::Copy)));
}

#[test]
fn moving_steps_over_dividers_and_what_cannot_be_chosen() {
    let mut m = menu(vec![
        item("copy", Cmd::Copy),
        Item::divider(),
        item("paste", Cmd::Paste).enabled(false),
        item("find", Cmd::Find),
    ]);
    assert_eq!(m.cursor, 0);
    m.step(1);
    assert_eq!(m.cursor, 3);
    m.step(1);
    assert_eq!(m.cursor, 0, "the end wraps round to the start");
    m.step(-1);
    assert_eq!(m.cursor, 3);
}

#[test]
fn a_menu_of_nothing_choosable_chooses_nothing() {
    let mut m = menu(vec![Item::divider(), item("cut", Cmd::Cut).enabled(false)]);
    m.step(1);
    assert_eq!(m.chosen(), None);
}

#[test]
fn clicking_a_divider_does_nothing_rather_than_what_was_highlighted() {
    let m = menu(vec![item("cut", Cmd::Cut), Item::divider(), item("copy", Cmd::Copy)]);
    assert_eq!(m.cursor, 0, "the highlight is on cut");
    assert_eq!(m.at(1), None, "the divider is not a row");
    assert_eq!(m.at(2), Some(Action::Run(Cmd::Copy)));
}

#[test]
fn clicking_a_row_asks_about_that_row_not_the_highlight() {
    let m = menu(vec![item("cut", Cmd::Cut), item("paste", Cmd::Paste).enabled(false)]);
    assert_eq!(m.at(1), None, "an unavailable row does nothing");
}

#[test]
fn pointing_at_a_divider_leaves_the_highlight_alone() {
    let mut m = menu(vec![item("copy", Cmd::Copy), Item::divider()]);
    m.point_at(1);
    assert_eq!(m.cursor, 0);
}

#[test]
fn pointing_at_something_unavailable_still_moves_the_highlight() {
    let mut m = menu(vec![item("copy", Cmd::Copy), item("paste", Cmd::Paste).enabled(false)]);
    m.point_at(1);
    assert_eq!(m.cursor, 1, "the highlight has to be where the pointer is");
    assert_eq!(m.chosen(), None, "but there is still nothing to choose");
}

#[test]
fn the_arrows_still_skip_what_cannot_be_chosen() {
    let mut m = menu(vec![
        item("copy", Cmd::Copy),
        item("paste", Cmd::Paste).enabled(false),
        item("find", Cmd::Find),
    ]);
    m.step(1);
    assert_eq!(m.cursor, 2);
}

#[test]
fn a_row_about_a_buffer_or_a_value_is_chosen_as_one() {
    let m = menu(vec![
        Item::on(DocId(7), "close".to_string(), Cmd::Close).key(Some("ctrl-w".to_string())),
        Item::chosen("tabs".to_string(), "indent:tabs".to_string()),
    ]);
    assert_eq!(m.len(), 2);
    assert_eq!(m.items[0].key.as_deref(), Some("ctrl-w"));
    assert_eq!(m.at(0), Some(Action::RunOn(DocId(7), Cmd::Close)));
    assert_eq!(m.at(1), Some(Action::Chosen("indent:tabs".to_string())));
    assert_eq!(m.at(2), None, "past the last row");
}

#[test]
fn going_round_stays_inside() {
    assert_eq!(around(-1, 4), 3);
    assert_eq!(around(4, 4), 0);
    assert_eq!(around(-9, 4), 3);
}

#[test]
fn a_menu_is_as_wide_as_its_widest_row_within_reason() {
    assert_eq!(Menu::width(&vec![]), 14);
    assert_eq!(Menu::width(&vec![(3, None)]), 14);
    assert_eq!(Menu::width(&vec![(3, None), (12, Some(6))]), 25);
    assert_eq!(Menu::width(&vec![(80, None)]), 48);
}
