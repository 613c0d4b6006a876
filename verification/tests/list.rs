//! The list and the split view.

use nitro::built::Built;
use nitro::event::{button, key, mods, Event, Handled, KeyEvent};
use nitro::list::moves::ListAct;
use nitro::list::paint::Redraw;
use nitro::list::{List, ListModel, Row, DOUBLE_CLICK, TYPE_AHEAD_GAP};
use nitro::split::parts::{split_parts_at, SplitPlan};
use nitro::split::rows::{
    badge_change, separator_slot, step, BadgeChange, Card, CardRow, SidebarReply, SidebarRow,
    Stepped,
};
use nitro::split::switch::Switch;
use nitro::split::view::{
    card, card_row, content_column, content_column_at, footnote, group_caption, pages,
    sidebar_row, sidebar_section, sidebar_separator, split_view, switch, Frame, Sketch, Stock,
};
use nitro::split::{names, Pressable};
use nitro::theme::ColorRole;
use nitro::ui::Ui;
use nitro::widget::{Role, Widget};

fn rows(texts: &[&str]) -> Vec<Row> {
    texts.iter().map(|t| Row::new((*t).to_owned())).collect()
}

fn fruit() -> List<Vec<Row>> {
    let mut l = List::new(rows(&["Apple", "Banana", "Avocado", "Cherry", "Blueberry"]));
    l.set_view(0, 2);
    l
}

fn press(keycode: u32, held: u32) -> KeyEvent {
    KeyEvent {
        keycode,
        keysym: 0,
        mods: held,
        text: String::new(),
    }
}

#[test]
fn a_row_is_built_in_steps() {
    let r = Row::new("file".to_owned())
        .icon("F".to_owned())
        .detail("3 KB".to_owned());
    assert_eq!(r.icon.as_deref(), Some("F"));
    assert_eq!((r.text.as_str(), r.detail.as_str()), ("file", "3 KB"));
    let model = vec![r.clone()];
    assert_eq!(ListModel::len(&model), 1);
    assert_eq!(model.row(0), r);
}

#[test]
fn a_list_materialises_a_screenful_and_two() {
    let mut l = List::new(rows(&["x"; 1000]));
    l.set_view(0, 10);
    assert_eq!(l.materialised(), 12);
    assert_eq!(l.visible_rows().len(), 10);
    assert_eq!(l.len(), 1000);
    assert!(!l.is_empty());
    assert!(l.row(1000).is_none());
    let mut short = List::new(rows(&["x"; 3]));
    short.set_view(0, 10);
    assert_eq!(short.materialised(), 3);
}

#[test]
fn a_settled_list_paints_nothing_again() {
    let mut l = fruit();
    let first = l.paint();
    assert_eq!(first.len(), 4);
    assert!(first.iter().all(|r| r.redraw == Redraw::Everything));
    let slots: Vec<u16> = first.iter().map(|r| r.slot).collect();
    assert_eq!(slots, [2, 6, 10, 14]);
    assert!(l.window_covers_view());
    assert!(l.paint().iter().all(|r| r.redraw == Redraw::Keep));
    // Moving the cursor costs two backgrounds.
    l.move_cursor(0, false);
    l.paint();
    l.move_cursor(1, false);
    let redrawn: Vec<(usize, Redraw)> = l.paint().iter().map(|r| (r.row, r.redraw)).collect();
    assert_eq!(
        redrawn,
        [
            (0, Redraw::Background),
            (1, Redraw::Background),
            (2, Redraw::Keep),
            (3, Redraw::Keep)
        ]
    );
    // Scrolling inside the spare rows touches nothing; further on it does.
    l.set_first(1);
    assert!(l.window_covers_view());
    l.set_first(3);
    assert!(!l.window_covers_view());
    l.spoil_rows();
    assert!(l.paint().iter().all(|r| r.redraw == Redraw::Everything));
}

#[test]
fn keys_move_the_cursor() {
    let mut l = fruit();
    assert_eq!(
        l.key(&press(key::DOWN, 0)),
        ListAct::Moved { to: 1, changed: true, activate: false }
    );
    assert_eq!(l.cursor(), 1);
    assert_eq!(l.selection(), [1]);
    l.key(&press(key::END, 0));
    assert_eq!(l.cursor(), 4);
    assert_eq!(
        l.key(&press(key::DOWN, 0)),
        ListAct::Moved { to: 4, changed: false, activate: false }
    );
    l.key(&press(key::PAGE_UP, 0));
    assert_eq!(l.cursor(), 2);
    l.key(&press(key::UP, mods::SHIFT));
    assert_eq!(l.selection(), [1, 2]);
    l.key(&press(key::SPACE, mods::CTRL));
    assert_eq!(l.selection(), [2]);
    l.key(&press(key::SPACE, mods::CTRL));
    assert_eq!(l.selection(), [1, 2]);
    assert_eq!(l.key(&press(key::ENTER, 0)), ListAct::Activate(1));
    assert_eq!(l.key(&press(key::SPACE, 0)), ListAct::Ignored);
    let mut empty: List<Vec<Row>> = List::new(Vec::new());
    assert_eq!(empty.key(&press(key::DOWN, 0)), ListAct::Ignored);
    assert_eq!(empty.key(&press(key::ENTER, 0)), ListAct::Ignored);
}

#[test]
fn a_second_click_activates() {
    let mut l = fruit();
    assert_eq!(
        l.press(Some(3), 1000),
        ListAct::Moved { to: 3, changed: true, activate: false }
    );
    assert_eq!(
        l.press(Some(3), 1000 + DOUBLE_CLICK - 1),
        ListAct::Moved { to: 3, changed: false, activate: true }
    );
    assert_eq!(
        l.press(Some(3), 1000 + 3 * DOUBLE_CLICK),
        ListAct::Moved { to: 3, changed: false, activate: false }
    );
    assert_eq!(l.press(Some(99), 0), ListAct::Done);
    assert_eq!(l.press(None, 0), ListAct::Done);
}

#[test]
fn typing_jumps_to_a_row() {
    let mut l = fruit();
    assert_eq!(
        l.type_ahead("A", 0),
        ListAct::Moved { to: 2, changed: true, activate: false }
    );
    // The same letter later on walks on to the next match, and comes round.
    assert_eq!(
        l.type_ahead("a", TYPE_AHEAD_GAP + 1),
        ListAct::Moved { to: 0, changed: true, activate: false }
    );
    // A letter typed soon is added to the prefix.
    assert_eq!(
        l.type_ahead("V", TYPE_AHEAD_GAP + 2),
        ListAct::Moved { to: 2, changed: true, activate: false }
    );
    assert_eq!(l.type_ahead("zzz", 10 * TYPE_AHEAD_GAP), ListAct::Ignored);
    assert_eq!(l.type_ahead("", 0), ListAct::Ignored);
    assert_eq!(l.type_ahead("\t", 0), ListAct::Ignored);
    // Case is Unicode's.
    let mut greek = List::new(rows(&["x", "\u{394}elta"]));
    assert_eq!(
        greek.type_ahead("\u{3b4}", 0),
        ListAct::Moved { to: 1, changed: true, activate: false }
    );
}

#[test]
fn a_jump_takes_names_in_lower_case() {
    let mut l = fruit();
    let names: Vec<String> = ["apple", "banana", "avocado", "cherry", "blueberry"]
        .iter()
        .map(|s| (*s).to_owned())
        .collect();
    assert_eq!(
        l.jump("b", &names, 5),
        ListAct::Moved { to: 1, changed: true, activate: false }
    );
    assert_eq!(
        l.jump("l", &names, 6),
        ListAct::Moved { to: 4, changed: true, activate: false }
    );
}

#[test]
fn actions_select_and_activate() {
    let mut l = fruit();
    assert_eq!(
        l.action("select", Some(" 2 ")),
        ListAct::Moved { to: 2, changed: true, activate: false }
    );
    assert_eq!(l.action("select", Some("9")), ListAct::Ignored);
    assert_eq!(l.action("select", None), ListAct::Ignored);
    assert_eq!(l.action("activate", None), ListAct::Activate(2));
    assert_eq!(
        l.action("click", Some("1")),
        ListAct::Moved { to: 1, changed: true, activate: true }
    );
    assert_eq!(l.action("scroll_by", Some("3.5")), ListAct::Scroll { relative: true });
    assert_eq!(l.action("scroll_to", Some("3.5")), ListAct::Scroll { relative: false });
    assert_eq!(l.action("scroll_to", None), ListAct::Ignored);
    assert_eq!(l.action("dance", None), ListAct::Ignored);
    assert_eq!(l.select(9), Some(4));
    assert_eq!(l.selection(), [4]);
}

#[test]
fn replacing_the_rows_keeps_what_it_can() {
    let mut l = fruit();
    l.move_cursor(1, false);
    l.move_cursor(4, true);
    assert_eq!(l.selection(), [1, 2, 3, 4]);
    l.set_model(rows(&["a", "b", "c"]));
    assert_eq!(l.selection(), [1, 2]);
    assert_eq!(l.cursor(), 2);
    l.set_model(Vec::new());
    assert_eq!(l.cursor(), 0);
    assert!(l.selection().is_empty());
    assert_eq!(l.select(0), None);
}

#[test]
fn a_list_reads_what_it_shows() {
    let mut model = rows(&["one", "two", "three"]);
    model[1].detail = "2 KB".to_owned();
    let mut l = List::new(model);
    l.set_view(0, 2);
    assert_eq!(l.role(), Role::List);
    assert_eq!(l.accessible().value.as_deref(), Some("one\ntwo\t2 KB"));
    l.set_first(2);
    assert_eq!(l.first_visible(), 2);
    assert_eq!(l.accessible().value.as_deref(), Some("three"));
    assert_eq!(l.accessible().actions.len(), 5);
}

// -- pressing -------------------------------------------------------------

#[test]
fn a_press_activates_where_it_began() {
    let mut p = Pressable::new();
    let down = p.event(&Event::PointerDown { button: button::LEFT }).unwrap();
    assert!(p.pressed && down.asks.focus && !down.asks.activate);
    let up = Event::PointerUp { button: button::LEFT, inside: true };
    assert!(p.event(&up).unwrap().asks.activate);
    assert!(!p.pressed);
    assert!(!p.event(&up).unwrap().asks.activate, "it was not held");
    p.event(&Event::PointerDown { button: button::LEFT });
    let outside = Event::PointerUp { button: button::LEFT, inside: false };
    assert!(!p.event(&outside).unwrap().asks.activate);
    p.event(&Event::KeyDown(press(key::SPACE, 0)));
    assert!(p.event(&Event::KeyUp(press(key::SPACE, 0))).unwrap().asks.activate);
    p.event(&Event::KeyDown(press(key::ENTER, 0)));
    assert_eq!(p.event(&Event::PointerLeave).unwrap().handled, Handled::No);
    assert!(!p.pressed);
    assert!(p.event(&Event::Scroll).is_none());
    assert!(p.action("press").asks.activate);
    assert_eq!(p.action("dance").handled, Handled::No);
}

#[test]
fn a_sidebar_row_steps_with_the_arrows() {
    let mut r = SidebarRow::new("Network".to_owned());
    assert_eq!(r.event(&Event::KeyDown(press(key::UP, 0))), SidebarReply::Step { backwards: true });
    assert_eq!(
        r.event(&Event::KeyDown(press(key::DOWN, 0))),
        SidebarReply::Step { backwards: false }
    );
    assert!(matches!(r.event(&Event::PointerEnter), SidebarReply::Answer(a) if a.asks.paint));
    assert_eq!(r.face(false), None);
    assert_eq!(r.face(true), Some(ColorRole::SidebarHover));
    assert!(r.action("set_selected", Some("yes")).asks.paint);
    assert!(r.is_selected());
    assert!(!r.set_selected(true));
    assert_eq!(r.face(true), Some(ColorRole::SidebarSelected));
    assert!(r.set_label("Sound"));
    assert_eq!(r.label(), "Sound");
    assert!(!r.is_pressed());
    assert_eq!(r.role(), Role::Button);
    assert_eq!(r.accessible().value.as_deref(), Some("Sound"));
}

#[test]
fn stepping_skips_what_is_no_row() {
    let mut ui: Ui<Stock<u8>> = Ui::new();
    let mut side: Sketch<u8> = sidebar_section("x".to_owned());
    side.children.clear();
    side.push(sidebar_row("a".to_owned(), "A".to_owned()).into_widget());
    side.push(sidebar_separator());
    side.push(sidebar_row("b".to_owned(), "B".to_owned()).into_widget());
    let id = ui.build(side);
    let kids = ui.children(id);
    let is_row = vec![true, false, true];
    assert_eq!(step(&ui, kids[0], &is_row, false), Stepped::To(kids[2]));
    assert_eq!(step(&ui, kids[2], &is_row, true), Stepped::To(kids[0]));
    assert_eq!(step(&ui, kids[2], &is_row, false), Stepped::Stay);
    assert_eq!(step(&ui, id, &is_row, false), Stepped::Nowhere);
    let icons = ui.children(kids[0]);
    assert_eq!(icons.len(), 2);
    assert_eq!(badge_change(&icons, true), BadgeChange::Append);
    assert_eq!(badge_change(&icons, false), BadgeChange::Nothing);
    assert_eq!(badge_change(&kids, true), BadgeChange::Say(kids[2]));
    assert_eq!(badge_change(&kids, false), BadgeChange::Remove(kids[2]));
}

#[test]
fn a_card_row_reacts_only_where_it_leads_somewhere() {
    let mut r = CardRow::new("About".to_owned());
    assert_eq!(r.event(&Event::PointerDown { button: button::LEFT }).handled, Handled::No);
    assert_eq!(r.role(), Role::Container);
    assert_eq!(r.face(true), None);
    assert_eq!(r.action("click").handled, Handled::No);
    r.clickable = true;
    assert_eq!(r.event(&Event::PointerDown { button: button::LEFT }).handled, Handled::Yes);
    assert_eq!(r.role(), Role::Button);
    assert_eq!(r.face(false), Some(Some(ColorRole::SidebarHover)));
    assert!(r.action("click").asks.activate);
}

#[test]
fn a_card_draws_a_line_above_all_rows_but_the_first() {
    let mut c: Card<f32> = Card::new();
    c.place(&vec![0.0, 44.0, 88.0]);
    assert_eq!(c.separators(), &[44.0, 88.0]);
    c.place(&Vec::new());
    assert!(c.separators().is_empty());
    assert_eq!(separator_slot(0), 1);
    assert_eq!(separator_slot(1_000_000), u16::MAX);
}

#[test]
fn a_switch_flips() {
    let mut s = Switch::new("Wi-Fi".to_owned());
    let up = Event::PointerUp { button: button::LEFT, inside: true };
    assert!(s.event(&up).asks.activate);
    assert!(s.is_checked());
    assert!(s.event(&Event::KeyDown(press(key::SPACE, 0))).asks.activate);
    assert!(!s.is_checked());
    assert!(s.action("set_value", Some("on")).asks.activate);
    assert!(!s.action("set_value", Some("on")).asks.activate, "it is on already");
    assert_eq!(s.accessible().value.as_deref(), Some("true"));
    assert_eq!(s.look(true, false).track, ColorRole::AccentHover);
    assert_eq!(s.look(false, true).border, Some(ColorRole::Focus));
    s.action("set_enabled", Some("false"));
    assert!(!s.is_enabled());
    assert_eq!(s.event(&up).handled, Handled::No);
    assert!(!s.action("toggle", None).asks.activate);
    assert!(s.is_checked());
    assert_eq!(s.look(true, false).track, ColorRole::ButtonDisabled);
    assert!(s.action("set_label", None).asks.layout);
    assert_eq!(s.label(), "");
    assert!(!s.look(false, false).labelled);
}

#[test]
fn a_switch_is_built_in_steps() {
    let b: Sketch<u8> = switch("Wi-Fi".to_owned()).checked(true).disabled().into_widget();
    assert!(b.focusable && b.children.is_empty());
    assert!(matches!(&b.widget, Stock::Switch(s)
        if s.is_checked() && !s.is_enabled() && s.label() == "Wi-Fi"));
    let b: Sketch<u8> = switch(String::new()).into_widget();
    assert!(matches!(&b.widget, Stock::Switch(s) if !s.is_checked() && s.is_enabled()));
}

// -- putting it together ----------------------------------------------------

fn label_of(b: &Sketch<u8>) -> &str {
    match &b.widget {
        Stock::Label { text, .. } => text,
        _ => panic!("a label"),
    }
}

#[test]
fn a_card_row_is_texts_then_what_trails_then_an_arrow() {
    let row: Sketch<u8> = card_row("Name".to_owned())
        .subtitle("of this machine".to_owned())
        .value("box".to_owned())
        .clickable()
        .into_widget();
    assert!(row.focusable);
    assert_eq!(row.children.len(), 3);
    assert_eq!(row.children[0].children.len(), 2);
    assert_eq!(label_of(&row.children[0].children[1]), "of this machine");
    assert_eq!(label_of(&row.children[1]), "box");
    assert!(matches!(&row.children[2].widget, Stock::Icon { name, .. } if name == "chevron-right"));
    let plain: Sketch<u8> = card_row("Name".to_owned()).into_widget();
    assert!(!plain.focusable && plain.children.len() == 1);
    let c = card().child(plain).into_widget();
    assert_eq!(c.children.len(), 1);
    assert_eq!(label_of(&group_caption("General".to_owned())), "General");
    assert_eq!(label_of(&footnote("Saved".to_owned())), "Saved");
}

#[test]
fn the_icon_of_a_sidebar_row_has_a_name_of_its_own() {
    let row: Sketch<u8> = sidebar_row("wifi".to_owned(), "Network".to_owned())
        .icon_name("net_icon".to_owned())
        .badge("2".to_owned())
        .into_widget();
    assert_eq!(row.children.len(), 3);
    let icon = &row.children[0];
    assert_eq!(icon.name.as_deref(), Some("net_icon"));
    assert!(matches!(&icon.widget, Stock::Icon { name, role }
        if name == "wifi" && *role == ColorRole::Text));
    assert_eq!(label_of(&row.children[1]), "Network");
    let plain: Sketch<u8> = sidebar_row("wifi".to_owned(), "Network".to_owned()).into_widget();
    assert_eq!(plain.children[0].name, None);
    assert!(matches!(&plain.children[0].widget, Stock::Icon { name, .. } if name == "wifi"));
}

#[test]
fn a_content_column_is_found_again() {
    let page: Sketch<u8> = content_column()
        .name("general".to_owned())
        .child(footnote("x".to_owned()))
        .into_widget();
    let mut ui: Ui<Stock<u8>> = Ui::new();
    let id = ui.build(page);
    let found = content_column_at(&ui, id).unwrap();
    assert_eq!(found.page, id);
    assert_eq!(ui.address_name(found.column).as_deref(), Some("general"));
    assert_eq!(content_column_at(&ui, found.column), None);
}

#[test]
fn a_split_view_has_its_parts_in_order() {
    let view: Sketch<u8> = split_view()
        .sidebar_header("Settings".to_owned())
        .sidebar_child(sidebar_row("wifi".to_owned(), "Network".to_owned()).into_widget())
        .content_header("Network".to_owned())
        .content(pages().current(1).into_widget())
        .content_footer(switch("On".to_owned()).into_widget())
        .into_widget();
    assert_eq!(view.name.as_deref(), Some(names::SPLIT));
    assert_eq!(view.children.len(), 3);
    let side = &view.children[0];
    assert_eq!(side.children.len(), 2);
    assert_eq!(side.children[0].name.as_deref(), Some(names::SIDEBAR_HEADER));
    assert_eq!(side.children[1].children[0].name.as_deref(), Some(names::SIDEBAR));
    assert!(matches!(view.children[1].widget, Stock::Line { vertical: true }));
    let content = &view.children[2];
    let parts: Vec<Option<&str>> = content.children.iter().map(|c| c.name.as_deref()).collect();
    assert_eq!(
        parts,
        [
            Some(names::CONTENT_HEADER),
            Some(names::CONTENT_BODY),
            Some(names::CONTENT_FOOTER)
        ]
    );
    assert!(matches!(&content.children[1].widget, Stock::Pages(p) if p.current() == 1));
    let bare: Sketch<u8> = split_view().into_widget();
    assert_eq!(bare.children[2].children.len(), 1);
    assert!(matches!(bare.children[2].children[0].widget, Stock::Frame(Frame::Body)));
}

#[test]
fn the_parts_of_a_split_view_are_found() {
    let view = split_view::<u8>()
        .sidebar_header("Places".to_owned())
        .sidebar_child(sidebar_row("home".to_owned(), "Home".to_owned()).into_widget())
        .content_header_leading(Built::new(Stock::Part(1)))
        .content_header("Files".to_owned())
        .content(Built::new(Stock::Part(2)))
        .content_footer(Built::new(Stock::Part(3)));
    let plan = view.plan();
    assert_eq!(
        plan,
        SplitPlan {
            header: true,
            title: Some(1),
            footer: true
        }
    );
    let mut ui: Ui<Stock<u8>> = Ui::new();
    let root = ui.build(view.into_widget());
    let parts = split_parts_at(&ui, root, plan).unwrap();
    assert_eq!(parts.root, root);
    assert_eq!(ui.children(parts.sidebar).len(), 1);
    let title = ui.widget(parts.title.unwrap());
    assert!(matches!(title, Ok(Stock::Label { text, .. }) if text == "Files"));
    assert!(matches!(ui.widget(parts.content_body), Ok(Stock::Part(2))));
    let footer = ui.widget(parts.content_footer.unwrap());
    assert!(matches!(footer, Ok(Stock::Part(3))));

    let bare = split_view::<u8>();
    let plan = bare.plan();
    let root = ui.build(bare.into_widget());
    let parts = split_parts_at(&ui, root, plan).unwrap();
    assert_eq!((parts.title, parts.content_footer), (None, None));
    assert!(matches!(
        ui.widget(parts.content_body),
        Ok(Stock::Frame(Frame::Body))
    ));
    assert_eq!(split_parts_at(&ui, parts.content_body, plan), None);
}

#[test]
fn what_was_built_earlier_stands_in_a_split_view() {
    let mut ui: Ui<Stock<u8>> = Ui::new();
    let row = ui.build(sidebar_row("b".to_owned(), "B".to_owned()).into_widget());
    let back = ui.build(Built::new(Stock::Part(1)));
    let act = ui.build(Built::new(Stock::Part(2)));
    let body = ui.build(Built::new(Stock::Part(3)));
    let mut named: Sketch<u8> = Built::new(Stock::Part(4));
    named.name = Some("status".to_owned());
    let foot = ui.build(named);
    let view = split_view::<u8>()
        .sidebar_child(sidebar_row("a".to_owned(), "A".to_owned()).into_widget())
        .sidebar_child_id(row)
        .sidebar_child(sidebar_row("c".to_owned(), "C".to_owned()).into_widget())
        .content_header_leading_id(back)
        .content_header("Files".to_owned())
        .content_header_trailing_id(act)
        .content_id(body)
        .content_footer_id(foot);
    let plan = view.plan();
    let root = ui.build(view.into_widget());
    for holder in ui.collect_subtree(root) {
        let id = match ui.widget(holder) {
            Ok(Stock::Held(id)) => *id,
            _ => continue,
        };
        assert_eq!(ui.stand_in(holder, id), Ok(()));
        assert!(!ui.is_live(holder));
    }
    let parts = split_parts_at(&ui, root, plan).unwrap();
    let rows = ui.children(parts.sidebar);
    assert_eq!((rows.len(), rows[1]), (3, row), "it stands where its place was");
    assert!(matches!(ui.widget(rows[2]), Ok(Stock::SidebarRow(r)) if r.label() == "C"));
    let header = ui.parent(parts.title.unwrap()).unwrap();
    assert_eq!(ui.children(header), [back, parts.title.unwrap(), act]);
    assert_eq!((parts.content_body, parts.content_footer), (body, Some(foot)));
    assert_eq!(ui.address_name(body).as_deref(), Some(names::CONTENT_BODY));
    assert_eq!(ui.address_name(foot).as_deref(), Some("status"), "its own name stays");
    assert_eq!(ui.address_name(row), None);
    assert_eq!(ui.remove(root), Ok(()));
    assert!(!ui.is_live(body), "it is part of the view now");
}
