//! What can go wrong in the toolkit.

use vstd::prelude::*;
use vstd::string::*;

verus! {

/// A toolkit error.
///
/// Everything that can be caused by an app's own mistake (a stale id, a
/// wrong widget type, re-entering a widget) is an error value, never a
/// panic.
#[derive(Debug, Clone, PartialEq, Eq)]
pub enum Error {
    /// The id names a widget that no longer exists.
    StaleWidget,
    /// The widget is currently running one of its own methods, so it is out
    /// of its slot and cannot be borrowed again.
    Busy,
    /// The widget exists but is not of the requested type.
    WrongType {
        /// The type that was asked for.
        expected: &'static str,
    },
    /// No root widget has been set.
    NoRoot,
    /// The connection failed, which is fatal; the text says how.
    Wire(String),
    /// A system call failed, with this text for its errno.
    Io(String),
}

impl Error {
    /// The error in words, in contracts.
    pub open spec fn words(self) -> Seq<char> {
        match self {
            Error::StaleWidget => "stale widget id"@,
            Error::Busy => "widget is already borrowed (re-entrant access)"@,
            Error::WrongType { expected } => "widget is not a "@ + expected@,
            Error::NoRoot => "no root widget"@,
            Error::Wire(e) => "wire: "@ + e@,
            Error::Io(e) => "io: "@ + e@,
        }
    }

    /// The error in words.
    pub fn text(&self) -> (s: String)
        ensures
            s@ == self.words(),
    {
        match self {
            Error::StaleWidget => "stale widget id".to_owned(),
            Error::Busy => "widget is already borrowed (re-entrant access)".to_owned(),
            Error::WrongType { expected } => {
                let mut s = "widget is not a ".to_owned();
                s.append(expected);
                s
            },
            Error::NoRoot => "no root widget".to_owned(),
            Error::Wire(e) => {
                let mut s = "wire: ".to_owned();
                s.append(e.as_str());
                s
            },
            Error::Io(e) => {
                let mut s = "io: ".to_owned();
                s.append(e.as_str());
                s
            },
        }
    }
}

} // verus!
