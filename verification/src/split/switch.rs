//! [`Switch`]: a sliding on/off control.

use vstd::prelude::*;

use crate::chars::{owned, text_eq};
use crate::event::{button, key, Event, Handled};
use crate::introspect::sockets::str_view;
use crate::split::{is_yes, pass, passed, yes, Asks, Reply};
use crate::theme::ColorRole;
use crate::widget::{Access, AccessView, Role, Widget};

verus! {

/// A sliding on/off control with an optional label.
#[derive(Debug, Clone, PartialEq, Eq)]
pub struct Switch {
    /// What it says; empty for none.
    pub label: String,
    /// Whether it is on.
    pub checked: bool,
    /// Whether it reacts to input.
    pub enabled: bool,
}

/// What a [`Switch`] holds, as mathematical values.
pub struct SwitchView {
    /// What it says.
    pub label: Seq<char>,
    /// Whether it is on.
    pub checked: bool,
    /// Whether it reacts to input.
    pub enabled: bool,
}

impl View for Switch {
    type V = SwitchView;

    open spec fn view(&self) -> SwitchView {
        SwitchView { label: self.label@, checked: self.checked, enabled: self.enabled }
    }
}

/// The colours a switch takes.
#[derive(Debug, Clone, Copy, PartialEq, Eq, Structural)]
pub struct SwitchLook {
    /// The track.
    pub track: ColorRole,
    /// The knob.
    pub knob: ColorRole,
    /// The ring around the knob.
    pub ring: ColorRole,
    /// The border of the track, where it has one.
    pub border: Option<ColorRole>,
    /// The label.
    pub text: ColorRole,
    /// Whether the knob is at the far end.
    pub far: bool,
    /// Whether there is a label.
    pub labelled: bool,
}

/// The colours a switch takes: disabled wins over on, and on over hovered.
pub open spec fn switch_look(v: SwitchView, hovered: bool, focused: bool) -> SwitchLook {
    SwitchLook {
        track: if !v.enabled {
            ColorRole::ButtonDisabled
        } else if v.checked && hovered {
            ColorRole::AccentHover
        } else if v.checked {
            ColorRole::Accent
        } else if hovered {
            ColorRole::ButtonHover
        } else {
            ColorRole::Track
        },
        knob: if v.checked {
            ColorRole::TextOnAccent
        } else {
            ColorRole::Surface
        },
        ring: ColorRole::Hairline,
        border: if focused {
            Some(ColorRole::Focus)
        } else {
            None
        },
        text: if v.enabled {
            ColorRole::Text
        } else {
            ColorRole::TextDim
        },
        far: v.checked,
        labelled: v.label.len() > 0,
    }
}

/// The switch moved to a position, and what it asks for: nothing where it is
/// disabled or there already.
pub open spec fn toggled(v: SwitchView, to: bool) -> (SwitchView, Asks) {
    if !v.enabled || v.checked == to {
        (v, Asks::none())
    } else {
        (
            SwitchView { checked: to, ..v },
            Asks { paint: true, activate: true, ..Asks::none() },
        )
    }
}

/// The switch after an event, and its reply.
pub open spec fn switch_event(v: SwitchView, ev: Event) -> (SwitchView, Reply) {
    let (flipped, asks) = toggled(v, !v.checked);
    if !v.enabled {
        (v, passed())
    } else {
        match ev {
            Event::PointerDown { button } => if button == button::LEFT {
                (
                    v,
                    Reply {
                        handled: Handled::Yes,
                        asks: Asks { focus: true, ..Asks::none() },
                    },
                )
            } else {
                (v, passed())
            },
            Event::PointerUp { button, inside } => if button == button::LEFT {
                if inside {
                    (flipped, Reply { handled: Handled::Yes, asks })
                } else {
                    (v, Reply { handled: Handled::Yes, asks: Asks::none() })
                }
            } else {
                (v, passed())
            },
            Event::KeyDown(k) => if k.keycode == key::SPACE {
                (flipped, Reply { handled: Handled::Yes, asks })
            } else {
                (v, passed())
            },
            Event::PointerEnter | Event::PointerLeave | Event::FocusChanged { .. } => (
                v,
                Reply { handled: Handled::No, asks: Asks { paint: true, ..Asks::none() } },
            ),
            _ => (v, passed()),
        }
    }
}

/// The switch after an action, and its reply.
pub open spec fn switch_action(v: SwitchView, action: Seq<char>, arg: Option<Seq<char>>) -> (
    SwitchView,
    Reply,
) {
    if action == "toggle"@ || action == "click"@ || action == "activate"@ {
        let (after, asks) = toggled(v, !v.checked);
        (after, Reply { handled: Handled::Yes, asks })
    } else if action == "set_value"@ || action == "set_checked"@ {
        let (after, asks) = toggled(v, is_yes(arg));
        (after, Reply { handled: Handled::Yes, asks })
    } else if action == "set_label"@ {
        (
            SwitchView {
                label: match arg {
                    Some(a) => a,
                    None => Seq::empty(),
                },
                ..v
            },
            Reply { handled: Handled::Yes, asks: Asks { layout: true, ..Asks::none() } },
        )
    } else if action == "set_enabled"@ {
        (
            SwitchView { enabled: arg != Some("false"@), ..v },
            Reply { handled: Handled::Yes, asks: Asks { paint: true, ..Asks::none() } },
        )
    } else {
        (v, passed())
    }
}

impl Switch {
    /// A switch that is off.
    pub fn new(label: String) -> (s: Switch)
        ensures
            s@ == (SwitchView { label: label@, checked: false, enabled: true }),
    {
        Switch { label, checked: false, enabled: true }
    }

    /// Whether the switch is on.
    pub fn is_checked(&self) -> (r: bool)
        ensures
            r == self@.checked,
    {
        self.checked
    }

    /// What the switch says.
    pub fn label(&self) -> (s: &str)
        ensures
            s@ == self@.label,
    {
        self.label.as_str()
    }

    /// Whether the switch reacts to input.
    pub fn is_enabled(&self) -> (r: bool)
        ensures
            r == self@.enabled,
    {
        self.enabled
    }

    /// Move the switch, telling the app; nothing happens where it is
    /// disabled or there already.
    pub fn toggle(&mut self, to: bool) -> (asks: Asks)
        ensures
            (final(self)@, asks) == toggled(old(self)@, to),
    {
        let mut asks = Asks::nothing();
        if !self.enabled || self.checked == to {
            return asks;
        }
        self.checked = to;
        asks.paint = true;
        asks.activate = true;
        asks
    }

    /// Handle an event.
    pub fn event(&mut self, ev: &Event) -> (reply: Reply)
        ensures
            (final(self)@, reply) == switch_event(old(self)@, *ev),
    {
        if !self.enabled {
            return pass();
        }
        let mut asks = Asks::nothing();
        match ev {
            Event::PointerDown { button } => {
                if *button != button::LEFT {
                    return pass();
                }
                asks.focus = true;
                Reply { handled: Handled::Yes, asks }
            },
            Event::PointerUp { button, inside } => {
                if *button != button::LEFT {
                    return pass();
                }
                if *inside {
                    asks = self.toggle(!self.checked);
                }
                Reply { handled: Handled::Yes, asks }
            },
            Event::KeyDown(k) => {
                if k.keycode != key::SPACE {
                    return pass();
                }
                asks = self.toggle(!self.checked);
                Reply { handled: Handled::Yes, asks }
            },
            Event::PointerEnter | Event::PointerLeave | Event::FocusChanged { .. } => {
                asks.paint = true;
                Reply { handled: Handled::No, asks }
            },
            _ => pass(),
        }
    }

    /// Carry out an action.
    pub fn action(&mut self, action: &str, arg: Option<&str>) -> (reply: Reply)
        ensures
            (final(self)@, reply) == switch_action(old(self)@, action@, str_view(arg)),
    {
        if text_eq(action, "toggle") || text_eq(action, "click") || text_eq(action, "activate") {
            let asks = self.toggle(!self.checked);
            Reply { handled: Handled::Yes, asks }
        } else if text_eq(action, "set_value") || text_eq(action, "set_checked") {
            let asks = self.toggle(yes(arg));
            Reply { handled: Handled::Yes, asks }
        } else if text_eq(action, "set_label") {
            self.label = match arg {
                Some(a) => owned(a),
                None => String::new(),
            };
            let mut asks = Asks::nothing();
            asks.layout = true;
            Reply { handled: Handled::Yes, asks }
        } else if text_eq(action, "set_enabled") {
            self.enabled = match arg {
                Some(a) => !text_eq(a, "false"),
                None => true,
            };
            let mut asks = Asks::nothing();
            asks.paint = true;
            Reply { handled: Handled::Yes, asks }
        } else {
            pass()
        }
    }

    /// Move the switch without telling the app, which knows; whether it has
    /// to be painted.
    pub fn set_checked(&mut self, checked: bool) -> (paint: bool)
        ensures
            final(self)@ == (SwitchView { checked, ..old(self)@ }),
            paint == (old(self)@.checked != checked),
    {
        let changed: bool = self.checked != checked;
        self.checked = checked;
        changed
    }

    /// Change what the switch says; whether it has to be laid out.
    pub fn set_label(&mut self, label: &str) -> (layout: bool)
        ensures
            final(self)@ == (SwitchView { label: label@, ..old(self)@ }),
            layout == (old(self)@.label != label@),
    {
        if text_eq(self.label.as_str(), label) {
            return false;
        }
        self.label = owned(label);
        true
    }

    /// Let the switch react to input or not; whether it has to be painted.
    pub fn set_enabled(&mut self, enabled: bool) -> (paint: bool)
        ensures
            final(self)@ == (SwitchView { enabled, ..old(self)@ }),
            paint == (old(self)@.enabled != enabled),
    {
        let changed: bool = self.enabled != enabled;
        self.enabled = enabled;
        changed
    }

    /// The colours the switch takes.
    pub fn look(&self, hovered: bool, focused: bool) -> (l: SwitchLook)
        ensures
            l == switch_look(self@, hovered, focused),
    {
        SwitchLook {
            track: if !self.enabled {
                ColorRole::ButtonDisabled
            } else if self.checked && hovered {
                ColorRole::AccentHover
            } else if self.checked {
                ColorRole::Accent
            } else if hovered {
                ColorRole::ButtonHover
            } else {
                ColorRole::Track
            },
            knob: if self.checked {
                ColorRole::TextOnAccent
            } else {
                ColorRole::Surface
            },
            ring: ColorRole::Hairline,
            border: if focused {
                Some(ColorRole::Focus)
            } else {
                None
            },
            text: if self.enabled {
                ColorRole::Text
            } else {
                ColorRole::TextDim
            },
            far: self.checked,
            labelled: self.label.unicode_len() > 0,
        }
    }
}

impl Widget for Switch {
    open spec fn role_view(&self) -> Role {
        Role::Checkbox
    }

    open spec fn enabled_view(&self) -> bool {
        self.enabled
    }

    open spec fn access_view(&self) -> AccessView {
        AccessView {
            name: if self.label@.len() == 0 {
                None
            } else {
                Some(self.label@)
            },
            value: Some(if self.checked {
                "true"@
            } else {
                "false"@
            }),
            actions: if self.enabled {
                seq!["toggle"@, "set_value"@, "focus"@]
            } else {
                Seq::empty()
            },
        }
    }

    fn role(&self) -> (r: Role) {
        Role::Checkbox
    }

    fn enabled(&self) -> (r: bool) {
        self.enabled
    }

    fn accessible(&self) -> (a: Access) {
        let mut actions: Vec<&'static str> = Vec::new();
        if self.enabled {
            actions.push("toggle");
            actions.push("set_value");
            actions.push("focus");
        }
        let name: Option<String> = if self.label.unicode_len() == 0 {
            None
        } else {
            Some(owned(self.label.as_str()))
        };
        let value = if self.checked {
            owned("true")
        } else {
            owned("false")
        };
        let a = Access { name, value: Some(value), actions };
        assert(a@.actions =~= self.access_view().actions);
        a
    }
}

/// A disabled switch never moves of itself: no event and no toggling action
/// changes whether it is on.
pub proof fn a_disabled_switch_stays(
    v: SwitchView,
    ev: Event,
    action: Seq<char>,
    arg: Option<Seq<char>>,
)
    requires
        !v.enabled,
    ensures
        switch_event(v, ev) == (v, passed()),
        switch_action(v, action, arg).0.checked == v.checked,
        !switch_action(v, action, arg).1.asks.activate,
{
}

/// Flipping a switch twice brings it back.
pub proof fn flipping_twice_restores(v: SwitchView)
    ensures
        ({
            let once = toggled(v, !v.checked).0;
            toggled(once, !once.checked).0 == v
        }),
{
}

} // verus!
