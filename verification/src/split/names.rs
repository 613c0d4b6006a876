//! The addressing names of the parts of a split view.

use vstd::prelude::*;

verus! {

/// The whole view.
pub const SPLIT: &'static str = "split";

/// The column of rows in the sidebar.
pub const SIDEBAR: &'static str = "sidebar";

/// The sidebar's own header.
pub const SIDEBAR_HEADER: &'static str = "sidebar_header";

/// The content pane.
pub const CONTENT: &'static str = "content";

/// The content pane's header.
pub const CONTENT_HEADER: &'static str = "content_header";

/// The title in that header.
pub const TITLE: &'static str = "title";

/// What fills the content pane.
pub const CONTENT_BODY: &'static str = "content_body";

/// What stands below it.
pub const CONTENT_FOOTER: &'static str = "content_footer";

} // verus!
