//! Subtrees that are described first and inserted into the tree once.

use vstd::prelude::*;

use crate::arena::{fresh_view, text_view, WidgetId, WidgetView};
use crate::tree::Nodes;

verus! {

/// A widget plus its name, its focusability and its children, ready to be
/// inserted.
pub struct Built<W> {
    /// The widget itself.
    pub widget: W,
    /// The addressing name, if it has one.
    pub name: Option<String>,
    /// Whether Tab can move focus here.
    pub focusable: bool,
    /// The child subtrees, in paint order.
    pub children: Vec<Built<W>>,
}

impl<W> Built<W> {
    /// How many widgets the subtree holds.
    pub open spec fn size(self) -> nat
        decreases self,
    {
        1 + sizes(self.children@)
    }

    /// A leaf with no name that Tab passes by.
    pub fn new(widget: W) -> (b: Built<W>)
        ensures
            b.widget == widget,
            b.name is None,
            !b.focusable,
            b.children@.len() == 0,
    {
        Built { widget, name: None, focusable: false, children: Vec::new() }
    }

    /// Swap the widget, keeping the rest.
    pub fn replace_widget(&mut self, widget: W)
        ensures
            *final(self) == (Built { widget, ..*old(self) }),
    {
        self.widget = widget;
    }

    /// Append a child subtree.
    pub fn push(&mut self, child: Built<W>)
        ensures
            final(self).children@ == old(self).children@.push(child),
            final(self).widget == old(self).widget,
            final(self).name == old(self).name,
            final(self).focusable == old(self).focusable,
    {
        self.children.push(child);
    }
}

/// How many widgets a run of subtrees holds.
pub open spec fn sizes<W>(bs: Seq<Built<W>>) -> nat
    decreases bs,
{
    if bs.len() == 0 {
        0
    } else {
        bs.last().size() + sizes(bs.drop_last())
    }
}

/// The state a subtree's outermost widget is inserted with.
pub open spec fn born<W>(
    b: Built<W>,
    parent: Option<WidgetId>,
    children: Seq<WidgetId>,
) -> WidgetView {
    WidgetView {
        parent,
        children,
        name: text_view(b.name),
        focusable: b.focusable,
        ..fresh_view()
    }
}

/// `b` stands in the tree at `id` under `parent`: every widget of it is
/// there, newly made, with the children it was described with. None of
/// them is in `avoid`.
pub open spec fn planted<W>(
    m: Nodes<W>,
    b: Built<W>,
    id: WidgetId,
    parent: Option<WidgetId>,
    avoid: Set<WidgetId>,
) -> bool
    decreases b,
{
    &&& m.dom().contains(id)
    &&& !avoid.contains(id)
    &&& m[id].widget == Some(b.widget)
    &&& m[id].state == born(b, parent, m[id].state.children)
    &&& m[id].state.children.len() == b.children@.len()
    &&& forall|i: int|
        0 <= i < b.children@.len() ==> planted(
            m,
            #[trigger] b.children@[i],
            m[id].state.children[i],
            Some(id),
            avoid,
        )
}

/// A planted subtree stays planted when the widgets under its root do not
/// change and the root at most gets another parent.
pub proof fn lemma_planted_frame<W>(
    m: Nodes<W>,
    n: Nodes<W>,
    b: Built<W>,
    id: WidgetId,
    parent: Option<WidgetId>,
    to: Option<WidgetId>,
    avoid: Set<WidgetId>,
    less: Set<WidgetId>,
)
    requires
        planted(m, b, id, parent, avoid),
        less.subset_of(avoid),
        n.dom().contains(id),
        n[id].widget == m[id].widget,
        n[id].state == (WidgetView { parent: to, ..m[id].state }),
        forall|x: WidgetId| #[trigger]
            m.dom().contains(x) && !avoid.contains(x) && m[x].state.parent is Some ==> n.dom().contains(
                x,
            ) && n[x] == m[x],
    ensures
        planted(n, b, id, to, less),
    decreases b,
{
    assert(n[id].state.children == m[id].state.children);
    assert forall|i: int| 0 <= i < b.children@.len() implies planted(
        n,
        #[trigger] b.children@[i],
        n[id].state.children[i],
        Some(id),
        less,
    ) by {
        let c = m[id].state.children[i];
        assert(planted(m, b.children@[i], c, Some(id), avoid));
        lemma_planted_frame(m, n, b.children@[i], c, Some(id), Some(id), avoid, less);
    }
    assert(n[id].state =~= born(b, to, n[id].state.children));
}

/// A widget is born where it was put, under the name it was given, visible and
/// at rest, with everything about it still to do and nothing of it on screen.
pub proof fn a_new_widget_has_everything_before_it<W>(
    b: Built<W>,
    parent: Option<WidgetId>,
    children: Seq<WidgetId>,
)
    ensures
        ({
            let st = born(b, parent, children);
            &&& st.parent == parent && st.children == children
            &&& st.name == text_view(b.name) && st.focusable == b.focusable
            &&& st.visible && !st.collapsed && !st.hovered && !st.focused && !st.measured
            &&& st.flags.layout && st.flags.paint && st.flags.tree
            &&& !st.flags.sub_layout && !st.flags.sub_paint && !st.flags.sub_tree
            &&& st.node is None && st.content is None && st.attached is None
            &&& st.sent_visible is None && !st.content_clip
            &&& st.bounds.x == 0 && st.bounds.y == 0 && st.bounds.w == 0 && st.bounds.h == 0
        }),
{
}

} // verus!
