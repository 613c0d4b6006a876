//! Where the parts of a split view are once it stands in a tree.

use vstd::prelude::*;

use crate::arena::WidgetId;
use crate::built::planted;
use crate::split::view::{has_header, is_split, Sketch, SplitParts, SplitViewBuilder, Stock};
use crate::tree::Nodes;
use crate::ui::Ui;

verus! {

/// What a split view was made with, as far as its shape depends on it.
#[derive(Debug, Clone, Copy, PartialEq, Eq, Structural)]
pub struct SplitPlan {
    /// Whether the content pane has a header.
    pub header: bool,
    /// Which child of the header is the title, if there is one.
    pub title: Option<usize>,
    /// Whether the content pane has a footer.
    pub footer: bool,
}

/// What a split view is made with.
pub open spec fn planned<P>(of: SplitViewBuilder<P>) -> SplitPlan {
    SplitPlan {
        header: has_header(of),
        title: if of.header_title is Some {
            Some(of.header_leading@.len() as usize)
        } else {
            None
        },
        footer: of.footer is Some,
    }
}

impl<P> SplitViewBuilder<P> {
    /// What the view is made with.
    pub fn plan(&self) -> (p: SplitPlan)
        ensures
            p == planned(*self),
    {
        let lead: usize = self.header_leading.len();
        SplitPlan {
            header: self.header_title.is_some() || lead > 0,
            title: if self.header_title.is_some() {
                Some(lead)
            } else {
                None
            },
            footer: self.footer.is_some(),
        }
    }
}

/// A child of a live widget, by its number.
pub open spec fn child_at<W>(m: Nodes<W>, id: WidgetId, i: int) -> Option<WidgetId> {
    if m.dom().contains(id) && 0 <= i < m[id].state.children.len() {
        Some(m[id].state.children[i])
    } else {
        None
    }
}

/// The last child of a live widget.
pub open spec fn last_child<W>(m: Nodes<W>, id: WidgetId) -> Option<WidgetId> {
    child_at(m, id, m[id].state.children.len() - 1)
}

/// The column of sidebar rows: the child of the viewport, which is the last
/// of the sidebar pane, which is the first of the view.
pub open spec fn sidebar_in<W>(m: Nodes<W>, root: WidgetId) -> Option<WidgetId> {
    match child_at(m, root, 0) {
        Some(side) => match last_child(m, side) {
            Some(view) => child_at(m, view, 0),
            None => None,
        },
        None => None,
    }
}

/// The title: a child of the header, which is the first of the content pane.
pub open spec fn title_in<W>(m: Nodes<W>, content: WidgetId, plan: SplitPlan) -> Option<WidgetId> {
    match (plan.title, child_at(m, content, 0)) {
        (Some(i), Some(header)) => child_at(m, header, i as int),
        _ => None,
    }
}

/// The number of the body among the children of the content pane.
pub open spec fn body_at(plan: SplitPlan) -> int {
    if plan.header {
        1
    } else {
        0
    }
}

/// The parts of a split view that stands at `root`.
pub open spec fn parts_in<W>(m: Nodes<W>, root: WidgetId, plan: SplitPlan) -> Option<SplitParts> {
    match (sidebar_in(m, root), child_at(m, root, 2)) {
        (Some(sidebar), Some(content)) => match child_at(m, content, body_at(plan)) {
            Some(body) => Some(
                SplitParts {
                    root,
                    sidebar,
                    title: title_in(m, content, plan),
                    content_body: body,
                    content_footer: if plan.footer {
                        child_at(m, content, body_at(plan) + 1)
                    } else {
                        None
                    },
                },
            ),
            None => None,
        },
        _ => None,
    }
}

fn nth<W>(ui: &Ui<W>, id: WidgetId, i: usize) -> (c: Option<WidgetId>)
    ensures
        c == child_at(ui@.nodes, id, i as int),
{
    let kids = ui.children(id);
    if i < kids.len() {
        Some(kids[i])
    } else {
        None
    }
}

fn find_sidebar<W>(ui: &Ui<W>, root: WidgetId) -> (c: Option<WidgetId>)
    ensures
        c == sidebar_in(ui@.nodes, root),
{
    let side = match nth(ui, root, 0) {
        Some(s) => s,
        None => return None,
    };
    let kids = ui.children(side);
    if kids.len() == 0 {
        return None;
    }
    nth(ui, kids[kids.len() - 1], 0)
}

/// The parts of a split view that stands at `root` and was made with a plan;
/// none where there is no such view.
pub fn split_parts_at<W>(ui: &Ui<W>, root: WidgetId, plan: SplitPlan) -> (p: Option<SplitParts>)
    ensures
        p == parts_in(ui@.nodes, root, plan),
{
    let sidebar = match find_sidebar(ui, root) {
        Some(s) => s,
        None => return None,
    };
    let content = match nth(ui, root, 2) {
        Some(c) => c,
        None => return None,
    };
    let at: usize = if plan.header {
        1
    } else {
        0
    };
    let content_body = match nth(ui, content, at) {
        Some(b) => b,
        None => return None,
    };
    let title = match (plan.title, nth(ui, content, 0)) {
        (Some(i), Some(header)) => nth(ui, header, i),
        _ => None,
    };
    let content_footer = if plan.footer {
        nth(ui, content, at + 1)
    } else {
        None
    };
    Some(SplitParts { root, sidebar, title, content_body, content_footer })
}

/// A split view that was inserted has its parts where they are looked for:
/// the column holds the sidebar's rows, the title is the label that was
/// asked for, and the body and the footer are what was handed in.
pub proof fn the_parts_are_where_they_were_put<P>(
    m: Nodes<Stock<P>>,
    b: Sketch<P>,
    of: SplitViewBuilder<P>,
    root: WidgetId,
    parent: Option<WidgetId>,
    avoid: Set<WidgetId>,
)
    requires
        is_split(b, of),
        planted(m, b, root, parent, avoid),
        of.header_leading@.len() <= usize::MAX,
    ensures
        ({
            let found = parts_in(m, root, planned(of));
            let parts = found->0;
            &&& found is Some
            &&& m[parts.sidebar].state.children.len() == of.sidebar_children@.len()
            &&& (parts.title is Some) == (of.header_title is Some)
            &&& of.header_title matches Some(t) ==> (m[parts.title->0].widget matches Some(
                Stock::Label { text, .. },
            ) && text@ == t@)
            &&& of.content matches Some(part) ==> m[parts.content_body].widget == Some(part.widget)
            &&& (parts.content_footer is Some) == (of.footer is Some)
            &&& of.footer matches Some(part) ==> m[parts.content_footer->0].widget == Some(
                part.widget,
            )
        }),
{
    let plan = planned(of);
    let kids = m[root].state.children;
    let side = b.children@[0];
    let content = b.children@[2];
    assert(planted(m, side, kids[0], Some(root), avoid));
    assert(planted(m, content, kids[2], Some(root), avoid));
    let n = side.children@.len() - 1;
    let view = side.children@[n];
    assert(side.children@.last() == view);
    let view_id = m[kids[0]].state.children[n];
    assert(planted(m, view, view_id, Some(kids[0]), avoid));
    let rows = view.children@[0];
    assert(planted(m, rows, m[view_id].state.children[0], Some(view_id), avoid));
    let inner = m[kids[2]].state.children;
    let at = body_at(plan);
    assert(planted(m, content.children@[at], inner[at], Some(kids[2]), avoid));
    if of.footer is Some {
        assert(planted(m, content.children@[at + 1], inner[at + 1], Some(kids[2]), avoid));
    }
    if has_header(of) {
        let header = content.children@[0];
        assert(planted(m, header, inner[0], Some(kids[2]), avoid));
        let lead = of.header_leading@.len() as int;
        assert(planted(
            m,
            header.children@[lead],
            m[inner[0]].state.children[lead],
            Some(inner[0]),
            avoid,
        ));
    }
}

} // verus!
