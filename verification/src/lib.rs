//! `nitro`: the logic of a retained widget toolkit and of the text engine
//! behind it.
//!
//! A tree of widgets ([`ui`]) keeps track of what has to be laid out, painted
//! and told to the server, and of who is offered which event. A [`window`]
//! and its [`hooks`] stand around it, [`introspect`] lets a script look
//! inside, [`list`] and [`split`] are widgets, and [`text`] finds fonts, cuts
//! text into runs and lines, and packs the masks of glyphs.
//!
//! Every function says what it does in a contract that is proved. Lengths,
//! positions and colours are the caller's, as type parameters or as answers
//! to questions such as whether something moved.

pub mod arena;
pub mod built;
pub mod chars;
pub mod dirty;
pub mod error;
pub mod event;
pub mod event_loop;
pub mod hooks;
pub mod introspect;
pub mod layout;
pub mod list;
pub mod shell;
pub mod shot;
pub mod split;
pub mod text;
pub mod theme;
pub mod tree;
pub mod ui;
pub mod widget;
pub mod window;
