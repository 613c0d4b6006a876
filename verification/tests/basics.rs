//! Flags, ids, events, roles, errors, axes and themes.

use nitro::arena::{Arena, WidgetState};
use nitro::chars;
use nitro::dirty::Dirty;
use nitro::error::Error;
use nitro::event::{key, Handled, KeyEvent};
use nitro::layout::{CrossAlign, Direction, Edges, MainAlign, Rect, Share, ShrinkFloor, Size};
use nitro::theme::{Metrics, Palette, TextStyle, Theme};
use nitro::widget::{default_access, Role};

#[test]
fn dirty_flags_compose() {
    let mut d = Dirty::none();
    assert!(d.is_clean());
    d.insert(Dirty::layout() | Dirty::paint());
    assert!(d.has(Dirty::layout()));
    assert!(d.has(Dirty::paint()));
    assert!(!d.has(Dirty::tree()));
    d.remove(Dirty::layout());
    assert!(!d.has(Dirty::layout()));
    assert_eq!(Dirty::layout().to_sub(), Dirty::sub_layout());
    assert_eq!(Dirty::paint().to_sub(), Dirty::sub_paint());
    assert_eq!(Dirty::tree().to_sub(), Dirty::sub_tree());
    // A `sub_` flag has no counterpart of its own, so it maps to
    // nothing rather than to a bit outside the set.
    assert_eq!(Dirty::sub_layout().to_sub(), Dirty::none());
    assert_eq!(Dirty::sub_tree().to_sub(), Dirty::none());
    assert_eq!(
        (Dirty::layout() | Dirty::sub_paint()).to_sub(),
        Dirty::sub_layout()
    );
}

#[test]
fn has_is_any_and_has_all_is_every() {
    // The early stop of a combined mark must ask whether an ancestor
    // already carries *both* sub flags, not whether it carries either.
    let mut d = Dirty::none();
    d.insert(Dirty::sub_layout());
    let both = Dirty::sub_layout() | Dirty::sub_paint();
    assert!(d.has(both), "one of the two is set");
    assert!(!d.has_all(both), "but not both");
    d.insert(Dirty::sub_paint());
    assert!(d.has_all(both));
    // Everything has all of nothing, which is what makes the walk
    // terminate rather than loop on an empty mark.
    assert!(Dirty::none().has_all(Dirty::none()));
    assert!(!Dirty::none().has(Dirty::paint()));
}

#[test]
fn ids_are_generational() {
    let mut arena: Arena<u8> = Arena::new();
    let a = arena.insert(1, WidgetState::fresh());
    assert!(arena.is_live(a));
    arena.remove(a);
    assert!(!arena.is_live(a));
    let b = arena.insert(2, WidgetState::fresh());
    assert_eq!(b.index(), a.index(), "the slot is recycled");
    assert_ne!(b.generation(), a.generation(), "but not under the same id");
    assert!(!arena.is_live(a));
    assert!(arena.is_live(b));
    assert_eq!(arena.len(), 1);
    assert_eq!(b.text(), "#0.2");
}

#[test]
fn handled_converts_from_bool() {
    assert_eq!(Handled::from(true), Handled::Yes);
    assert_eq!(Handled::from(false), Handled::No);
    assert!(Handled::Yes.is_handled());
    assert!(!Handled::No.is_handled());
}

#[test]
fn shift_reads_bit_zero() {
    let k = KeyEvent {
        keycode: key::TAB,
        keysym: 0,
        mods: 1,
        text: String::new(),
    };
    assert!(k.shift());
    assert!(!k.ctrl());
    assert!(
        !KeyEvent {
            mods: 4,
            ..k.clone()
        }
        .shift()
    );
    assert!(
        KeyEvent {
            mods: 4,
            ..k.clone()
        }
        .ctrl()
    );
    assert!(KeyEvent { mods: 5, ..k }.ctrl());
}

#[test]
fn the_default_access_comes_from_the_role() {
    assert!(default_access(Role::Other).actions.is_empty());
    assert_eq!(default_access(Role::Button).actions, ["activate"]);
    assert_eq!(Role::Button.name(), "button");
    assert_eq!(Role::Container.name(), "container");
    assert_eq!(Role::Label.name(), "label");
    assert_eq!(Role::TextField.name(), "textfield");
    assert_eq!(Role::Spacer.name(), "spacer");
    assert_eq!(Role::Other.name(), "other");
    assert_eq!(Role::from_name("slider"), Some(Role::Slider));
    assert_eq!(Role::from_name("nope"), None);
    for r in [
        Role::Container,
        Role::Label,
        Role::Button,
        Role::TextField,
        Role::Checkbox,
        Role::Scroll,
        Role::Slider,
        Role::Separator,
        Role::Image,
        Role::Icon,
        Role::Spacer,
        Role::Other,
    ] {
        assert_eq!(Role::from_name(r.name()), Some(r), "{r:?}");
    }
}

#[test]
fn errors_say_what_happened() {
    assert_eq!(Error::NoRoot.text(), "no root widget");
    assert_eq!(Error::StaleWidget.text(), "stale widget id");
    assert_eq!(
        Error::Busy.text(),
        "widget is already borrowed (re-entrant access)"
    );
    assert_eq!(
        Error::WrongType { expected: "Label" }.text(),
        "widget is not a Label"
    );
}

#[test]
fn numbers_are_written_and_read() {
    assert_eq!(chars::decimal(0), "0");
    assert_eq!(chars::decimal(4096), "4096");
    assert_eq!(chars::parse_decimal(&['+', '4', '2'], 100), Some(42));
    assert_eq!(chars::parse_decimal(&['1', '0', '1'], 100), None);
    assert_eq!(chars::parse_decimal(&['x'], 100), None);
    assert_eq!(chars::parse_decimal(&[], 100), None);
}

// -- axes ---------------------------------------------------------------

#[test]
fn directions_project_and_rebuild() {
    let s = Size { w: 10.0f32, h: 20.0 };
    assert_eq!(Direction::Row.main(s), 10.0);
    assert_eq!(Direction::Row.cross(s), 20.0);
    assert_eq!(Direction::Column.main(s), 20.0);
    assert_eq!(Direction::Column.cross(s), 10.0);
    let row = Direction::Row.size(1.0f32, 2.0);
    assert_eq!((row.w, row.h), (1.0, 2.0));
    let column = Direction::Column.size(1.0f32, 2.0);
    assert_eq!((column.w, column.h), (2.0, 1.0));
    let r: Rect<f32> = Direction::Column.rect(1.0, 2.0, 3.0, 4.0);
    assert_eq!((r.x, r.y, r.w, r.h), (2.0, 1.0, 4.0, 3.0));
}

#[test]
fn edges_start_where_the_axis_does() {
    let e = Edges::symmetric(3.0f32, 5.0);
    assert_eq!(e.main_ends(Direction::Row), (3.0, 3.0));
    assert_eq!(e.cross_ends(Direction::Row), (5.0, 5.0));
    assert_eq!(e.main_start(Direction::Row), 3.0);
    assert_eq!(e.cross_start(Direction::Row), 5.0);
    assert_eq!(e.main_start(Direction::Column), 5.0);
    assert_eq!(e.cross_start(Direction::Column), 3.0);
    assert_eq!(Edges::all(2).bottom, 2);
}

#[test]
fn alignments_share_the_room() {
    assert_eq!(MainAlign::Start.before(), Share::Nothing);
    assert_eq!(MainAlign::Center.before(), Share::Half);
    assert_eq!(MainAlign::End.before(), Share::All);
    assert_eq!(MainAlign::SpaceBetween.gaps(3), Some(2));
    assert_eq!(MainAlign::SpaceBetween.gaps(1), None);
    assert_eq!(MainAlign::Start.gaps(3), None);
    assert!(CrossAlign::Stretch.fills());
    assert_eq!(CrossAlign::Center.before(), Share::Half);
    assert_eq!(Direction::default(), Direction::Column);
    assert_eq!(MainAlign::default(), MainAlign::Start);
    assert_eq!(CrossAlign::default(), CrossAlign::Start);
    assert_eq!(ShrinkFloor::default(), ShrinkFloor::Content);
}

// -- themes ---------------------------------------------------------------

fn palette(base: u32) -> Palette<u32> {
    Palette {
        window_background: base,
        surface: base + 1,
        text: base + 2,
        text_dim: base + 3,
        button: base + 4,
        button_hover: base + 5,
        button_active: base + 6,
        button_disabled: base + 7,
        button_text: base + 8,
        border: base + 9,
        focus: base + 10,
        field: base + 11,
        selection: base + 12,
        caret: base + 13,
        placeholder: base + 14,
        accent: base + 15,
        accent_hover: base + 16,
        text_on_accent: base + 17,
        track: base + 18,
        sidebar_background: base + 19,
        sidebar_selected: base + 20,
        sidebar_hover: base + 21,
        hairline: base + 22,
    }
}

fn metrics() -> Metrics<f32> {
    Metrics {
        font_family: "sans".to_owned(),
        font_size: 14.0,
        radius: 4.0,
        border_width: 1.0,
        button_padding: (14.0, 7.0),
        panel_padding: 8.0,
        gap: 8.0,
        checkbox_size: 16.0,
        slider_track: 4.0,
        slider_knob: 14.0,
        separator_width: 1.0,
    }
}

#[test]
fn every_colour_field_comes_from_a_role() {
    let light = Theme::from_palette(&palette(100), metrics());
    let dark = Theme::from_palette(&palette(200), metrics());
    for (name, l, d) in [
        ("background", light.background, dark.background),
        ("surface", light.surface, dark.surface),
        ("text", light.text, dark.text),
        ("text_disabled", light.text_disabled, dark.text_disabled),
        ("button", light.button, dark.button),
        ("button_hover", light.button_hover, dark.button_hover),
        ("button_active", light.button_active, dark.button_active),
        (
            "button_disabled",
            light.button_disabled,
            dark.button_disabled,
        ),
        ("button_text", light.button_text, dark.button_text),
        ("border", light.border, dark.border),
        ("focus", light.focus, dark.focus),
        ("field", light.field, dark.field),
        ("selection", light.selection, dark.selection),
        ("caret", light.caret, dark.caret),
        ("placeholder", light.placeholder, dark.placeholder),
        ("accent", light.accent, dark.accent),
        ("track", light.track, dark.track),
    ] {
        assert_ne!(l, d, "{name} did not follow the scheme");
    }
    assert_eq!(light.text_disabled, 103);
    assert_eq!(light.metrics.font_size.to_bits(), dark.metrics.font_size.to_bits());
    assert_eq!(light.metrics.radius.to_bits(), dark.metrics.radius.to_bits());
}

#[test]
fn with_palette_keeps_the_apps_metrics() {
    let mut t = Theme::from_palette(&palette(100), metrics());
    t.metrics.font_size = 22.0;
    t.metrics.font_family = "mono".to_owned();
    t.metrics.radius = 0.0;
    let dark = t.with_palette(&palette(200));
    assert_eq!(dark.metrics.font_size.to_bits(), 22.0f32.to_bits());
    assert_eq!(dark.metrics.font_family, "mono");
    assert_eq!(dark.metrics.radius.to_bits(), 0.0f32.to_bits());
    assert_eq!(dark.background, 200);
    let again = dark.with_palette(&palette(200));
    assert_eq!(again.background, dark.background);
    assert_eq!(again.track, dark.track);
    assert_eq!(again.metrics.font_family, dark.metrics.font_family);
    let style = TextStyle::from_theme(&again);
    assert_eq!(style.family, "mono");
    assert_eq!(style.size_px.to_bits(), 22.0f32.to_bits());
    assert_eq!((style.weight, style.italic), (400, false));
}
