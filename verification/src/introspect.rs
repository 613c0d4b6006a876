//! The introspection protocol: every app is scriptable from outside.
//!
//! Another process reads the widget tree, changes it and invokes its
//! actions through a line-based text protocol. The requests are answered
//! out of the same tree the passes walk.

pub mod addressing;
pub mod answer;
pub mod clients;
pub mod delivery;
pub mod framing;
pub mod path;
pub mod request;
pub mod sockets;
pub mod text;

pub use answer::{answer, enabled, format_bounds, get, get_prop, handle, invoke, list};
pub use clients::watch_matches;
pub use path::{path_of, resolve, ROOT};
pub use request::{parse_request, rest_after, take_line};
pub use sockets::{
    parse_socket_name, resolve_dir, responds, sanitize, stale, AppSocket, DIR_ENV,
};
pub use text::{addressable, escape, parse_indexed, unescape, MAX_LINE};
