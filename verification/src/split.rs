//! The two-pane window: a sidebar of rows beside a content pane of cards.
//!
//! What is here is what these widgets decide: which state an event leaves
//! them in, what they ask for, which colours they take, and which widgets a
//! view is put together from. Sizes are the caller's.

use vstd::prelude::*;

use crate::chars::text_eq;
use crate::event::{button, key, Event, Handled};
use crate::introspect::sockets::str_view;

pub mod gestures;
pub mod names;
pub mod pages;
pub mod parts;
pub mod rows;
pub mod switch;
pub mod view;

verus! {

/// What a widget asks for while it handles an event.
#[derive(Debug, Clone, Copy, PartialEq, Eq, Structural)]
pub struct Asks {
    /// The keyboard focus.
    pub focus: bool,
    /// To be painted.
    pub paint: bool,
    /// To be laid out.
    pub layout: bool,
    /// That its activation is reported and its callback run.
    pub activate: bool,
}

impl Asks {
    /// Nothing.
    pub open spec fn none() -> Asks {
        Asks { focus: false, paint: false, layout: false, activate: false }
    }

    /// Nothing.
    pub fn nothing() -> (a: Asks)
        ensures
            a == Asks::none(),
    {
        Asks { focus: false, paint: false, layout: false, activate: false }
    }
}

/// The answer to an event or an action, and what is asked for.
#[derive(Debug, Clone, Copy, PartialEq, Eq, Structural)]
pub struct Reply {
    /// Whether it stops here.
    pub handled: Handled,
    /// What is asked for.
    pub asks: Asks,
}

/// A reply that says no and asks for nothing.
pub open spec fn passed() -> Reply {
    Reply { handled: Handled::No, asks: Asks::none() }
}

/// A reply that says no and asks for nothing.
pub fn pass() -> (r: Reply)
    ensures
        r == passed(),
{
    Reply { handled: Handled::No, asks: Asks::nothing() }
}

/// Whether an argument stands for yes.
pub open spec fn is_yes(arg: Option<Seq<char>>) -> bool {
    match arg {
        Some(a) => a == "true"@ || a == "1"@ || a == "on"@ || a == "yes"@,
        None => false,
    }
}

/// Whether an argument stands for yes.
pub fn yes(arg: Option<&str>) -> (r: bool)
    ensures
        r == is_yes(str_view(arg)),
{
    match arg {
        Some(a) => text_eq(a, "true") || text_eq(a, "1") || text_eq(a, "on") || text_eq(a, "yes"),
        None => false,
    }
}

/// The keys that press a widget.
pub open spec fn is_press_key(keycode: u32) -> bool {
    keycode == key::SPACE || keycode == key::ENTER
}

/// What an event does to a widget that can be pressed: the state it is left
/// in, and the reply, or none where the event says nothing about pressing.
///
/// A press activates when it ends where it began: the pointer is let go over
/// the widget, or the key is let go.
pub open spec fn press_event(pressed: bool, ev: Event) -> (bool, Option<Reply>) {
    match ev {
        Event::PointerDown { button } => if button == button::LEFT {
            (
                true,
                Some(
                    Reply {
                        handled: Handled::Yes,
                        asks: Asks { focus: true, paint: true, ..Asks::none() },
                    },
                ),
            )
        } else {
            (pressed, None)
        },
        Event::PointerUp { button, inside } => if button == button::LEFT {
            (
                false,
                Some(
                    Reply {
                        handled: Handled::Yes,
                        asks: Asks { paint: true, activate: pressed && inside, ..Asks::none() },
                    },
                ),
            )
        } else {
            (pressed, None)
        },
        Event::KeyDown(k) => if is_press_key(k.keycode) {
            (
                true,
                Some(
                    Reply {
                        handled: Handled::Yes,
                        asks: Asks { paint: true, ..Asks::none() },
                    },
                ),
            )
        } else {
            (pressed, None)
        },
        Event::KeyUp(k) => if is_press_key(k.keycode) {
            (
                false,
                Some(
                    Reply {
                        handled: Handled::Yes,
                        asks: Asks { paint: true, activate: pressed, ..Asks::none() },
                    },
                ),
            )
        } else {
            (pressed, None)
        },
        Event::PointerLeave => (
            false,
            Some(Reply { handled: Handled::No, asks: Asks { paint: true, ..Asks::none() } }),
        ),
        Event::PointerEnter | Event::FocusChanged { .. } => (
            pressed,
            Some(Reply { handled: Handled::No, asks: Asks { paint: true, ..Asks::none() } }),
        ),
        _ => (pressed, None),
    }
}

/// What an action does to a widget that can be pressed.
pub open spec fn press_action(action: Seq<char>) -> Reply {
    if action == "click"@ || action == "activate"@ || action == "press"@ {
        Reply { handled: Handled::Yes, asks: Asks { activate: true, ..Asks::none() } }
    } else {
        passed()
    }
}

/// The part of a widget that can be pressed.
#[derive(Debug, Clone, Copy, PartialEq, Eq, Structural)]
pub struct Pressable {
    /// Whether it is held down.
    pub pressed: bool,
}

impl Pressable {
    /// One that is not held down.
    pub fn new() -> (p: Pressable)
        ensures
            !p.pressed,
    {
        Pressable { pressed: false }
    }

    /// Handle an event; none where it says nothing about pressing.
    pub fn event(&mut self, ev: &Event) -> (reply: Option<Reply>)
        ensures
            (final(self).pressed, reply) == press_event(old(self).pressed, *ev),
    {
        let mut asks = Asks::nothing();
        asks.paint = true;
        match ev {
            Event::PointerDown { button } => {
                if *button != button::LEFT {
                    return None;
                }
                self.pressed = true;
                asks.focus = true;
                Some(Reply { handled: Handled::Yes, asks })
            },
            Event::PointerUp { button, inside } => {
                if *button != button::LEFT {
                    return None;
                }
                asks.activate = self.pressed && *inside;
                self.pressed = false;
                Some(Reply { handled: Handled::Yes, asks })
            },
            Event::KeyDown(k) => {
                if k.keycode != key::SPACE && k.keycode != key::ENTER {
                    return None;
                }
                self.pressed = true;
                Some(Reply { handled: Handled::Yes, asks })
            },
            Event::KeyUp(k) => {
                if k.keycode != key::SPACE && k.keycode != key::ENTER {
                    return None;
                }
                asks.activate = self.pressed;
                self.pressed = false;
                Some(Reply { handled: Handled::Yes, asks })
            },
            Event::PointerLeave => {
                self.pressed = false;
                Some(Reply { handled: Handled::No, asks })
            },
            Event::PointerEnter | Event::FocusChanged { .. } => Some(
                Reply { handled: Handled::No, asks },
            ),
            _ => None,
        }
    }

    /// Carry out an action.
    pub fn action(&self, action: &str) -> (reply: Reply)
        ensures
            reply == press_action(action@),
    {
        if text_eq(action, "click") || text_eq(action, "activate") || text_eq(action, "press") {
            let mut asks = Asks::nothing();
            asks.activate = true;
            Reply { handled: Handled::Yes, asks }
        } else {
            pass()
        }
    }
}

/// Only letting go activates, and only a widget that was held down.
pub proof fn letting_go_activates(pressed: bool, ev: Event)
    ensures
        (match press_event(pressed, ev).1 {
            Some(r) => r.asks.activate,
            None => false,
        }) ==> pressed && (ev is PointerUp || ev is KeyUp) && !press_event(pressed, ev).0,
{
}

} // verus!
