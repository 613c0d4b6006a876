//! Reading the tree: names, roles, accessibility records, visibility, and
//! the walk the introspection socket serves.

use vstd::prelude::*;

use crate::arena::{text_view, Bounds, Entry, WidgetId, WidgetView};
use crate::chars::owned;
use crate::error::Error;
use crate::tree::{
    lemma_ancestors, lemma_chain_link, lemma_present_one, lemma_present_step, linked, present,
    ranked, trail, with_state, Nodes,
};
use crate::ui::{Ui, UiView};
use crate::widget::{Access, AccessView, Role, Widget};

verus! {

/// One widget as the introspection tree sees it.
#[derive(Debug, Clone, PartialEq, Eq)]
pub struct Node {
    /// The widget's stable id.
    pub id: WidgetId,
    /// What it is.
    pub role: Role,
    /// Its name, value and actions.
    pub access: Access,
    /// Where it is, in window coordinates.
    pub bounds: Bounds,
    /// Whether Tab can reach it.
    pub focusable: bool,
    /// Whether it currently has the keyboard focus.
    pub focused: bool,
    /// Whether it is on screen: its own flag and every ancestor's.
    pub visible: bool,
    /// Its children, in paint order.
    pub children: Vec<WidgetId>,
}

/// What a [`Node`] holds, as mathematical values.
pub struct NodeView {
    /// The widget's id.
    pub id: WidgetId,
    /// What it is.
    pub role: Role,
    /// Its name, value and actions.
    pub access: AccessView,
    /// Where it is.
    pub bounds: Bounds,
    /// Whether Tab can reach it.
    pub focusable: bool,
    /// Whether it has the keyboard focus.
    pub focused: bool,
    /// Whether it is on screen.
    pub visible: bool,
    /// Its children.
    pub children: Seq<WidgetId>,
}

impl View for Node {
    type V = NodeView;

    open spec fn view(&self) -> NodeView {
        NodeView {
            id: self.id,
            role: self.role,
            access: self.access@,
            bounds: self.bounds,
            focusable: self.focusable,
            focused: self.focused,
            visible: self.visible,
            children: self.children@,
        }
    }
}

/// A widget's record, with the addressing name where it gives none itself.
pub open spec fn named(a: AccessView, name: Option<Seq<char>>) -> AccessView {
    AccessView {
        name: if a.name is Some {
            a.name
        } else {
            name
        },
        ..a
    }
}

/// An owned copy of an optional string.
pub fn copy_text(s: &Option<String>) -> (r: Option<String>)
    ensures
        text_view(r) == text_view(*s),
{
    match s {
        Some(t) => Some(owned(t.as_str())),
        None => None,
    }
}

impl<W> Ui<W> {
    /// Whether `id` is shown: it is live, and neither it nor an ancestor is
    /// hidden.
    pub open spec fn shown(&self, id: WidgetId) -> bool {
        &&& self@.nodes.dom().contains(id)
        &&& self@.nodes[id].state.visible
        &&& forall|i: int|
            0 <= i < self.ancestors(id).len()
                ==> self@.nodes[#[trigger] self.ancestors(id)[i]].state.visible
    }

    /// Whether `id` is shown: its own flag **and** every ancestor's, since a
    /// widget inside a hidden page is not on screen either.
    pub fn is_visible(&self, id: WidgetId) -> (r: bool)
        requires
            self.wf(),
        ensures
            r == self.shown(id),
    {
        if !self.arena.is_live(id) {
            return false;
        }
        let ghost m = self@.nodes;
        let ghost up = self.ancestors(id);
        proof {
            self.tree_shape();
            lemma_ancestors(m, self.rank@, self.top@, id);
        }
        if !self.arena.state(id).visible {
            return false;
        }
        let mut cur: Option<WidgetId> = self.arena.state(id).parent;
        let ghost mut k: int = 0;
        while cur.is_some()
            invariant
                m == self@.nodes,
                linked(m),
                ranked(m, self.rank@, self.top@),
                m.dom().contains(id),
                up == self.ancestors(id),
                m[id].state.visible,
                0 <= k <= up.len(),
                cur == (if k < up.len() {
                    Some(up[k])
                } else {
                    None
                }),
                forall|i: int| 0 <= i < k ==> m[#[trigger] up[i]].state.visible,
            decreases up.len() - k,
        {
            proof {
                lemma_ancestors(m, self.rank@, self.top@, id);
                lemma_chain_link(m, self.rank@, self.top@, id, k);
                assert(m.dom().contains(up[k]));
            }
            let w = cur.unwrap();
            let st = self.arena.state(w);
            if !st.visible {
                return false;
            }
            cur = st.parent;
            proof {
                k = k + 1;
            }
        }
        true
    }

    /// The widget's **addressing** name: the one it was given, and only
    /// that. An accessible name is a sentence, and a path built out of one
    /// would move every time the text did.
    pub fn address_name(&self, id: WidgetId) -> (name: Option<String>)
        ensures
            text_view(name) == self.address(id),
    {
        if self.arena.is_live(id) {
            copy_text(&self.arena.state(id).name)
        } else {
            None
        }
    }

    /// The widget's addressing name, in contracts.
    pub open spec fn address(&self, id: WidgetId) -> Option<Seq<char>> {
        if self@.nodes.dom().contains(id) {
            self@.nodes[id].state.name
        } else {
            None
        }
    }

    /// Give the widget an addressing name, or take it away; nothing happens
    /// to a stale id.
    pub fn put_name(&mut self, id: WidgetId, name: Option<String>)
        requires
            old(self).wf(),
        ensures
            final(self).wf(),
            final(self).rank() == old(self).rank(),
            final(self).top() == old(self).top(),
            final(self)@ == (UiView {
                nodes: if old(self)@.nodes.dom().contains(id) {
                    with_state(
                        old(self)@.nodes,
                        id,
                        WidgetView { name: text_view(name), ..old(self)@.nodes[id].state },
                    )
                } else {
                    old(self)@.nodes
                },
                ..old(self)@
            }),
            final(self).space_left() == old(self).space_left(),
            final(self).still_retired(old(self)),
            trail(old(self)@.nodes) ==> trail(final(self)@.nodes),
    {
        if !self.arena.is_live(id) {
            return;
        }
        let st = self.arena.state_mut(id);
        st.name = name;
        proof {
            reveal(trail);
            self.lemma_changed(
                old(self),
                id,
                WidgetView { name: text_view(name), ..old(self)@.nodes[id].state },
            );
        }
    }

    /// Set the widget's addressing name after it was built.
    pub fn set_address_name(&mut self, id: WidgetId, name: String)
        requires
            old(self).wf(),
        ensures
            final(self).wf(),
            final(self).rank() == old(self).rank(),
            final(self).top() == old(self).top(),
            final(self)@ == (UiView {
                nodes: if old(self)@.nodes.dom().contains(id) {
                    with_state(
                        old(self)@.nodes,
                        id,
                        WidgetView { name: Some(name@), ..old(self)@.nodes[id].state },
                    )
                } else {
                    old(self)@.nodes
                },
                ..old(self)@
            }),
            final(self).space_left() == old(self).space_left(),
            final(self).still_retired(old(self)),
    {
        self.put_name(id, Some(name));
    }

    /// Where the widget is on screen, in whole pixels, as the layout left it.
    pub fn set_bounds(&mut self, id: WidgetId, bounds: Bounds)
        requires
            old(self).wf(),
        ensures
            final(self).wf(),
            final(self).rank() == old(self).rank(),
            final(self).top() == old(self).top(),
            final(self)@ == (UiView {
                nodes: if old(self)@.nodes.dom().contains(id) {
                    with_state(
                        old(self)@.nodes,
                        id,
                        WidgetView { bounds, ..old(self)@.nodes[id].state },
                    )
                } else {
                    old(self)@.nodes
                },
                ..old(self)@
            }),
            final(self).space_left() == old(self).space_left(),
            final(self).still_retired(old(self)),
    {
        if !self.arena.is_live(id) {
            return;
        }
        let st = self.arena.state_mut(id);
        st.bounds = bounds;
        proof {
            self.lemma_changed(
                old(self),
                id,
                WidgetView { bounds, ..old(self)@.nodes[id].state },
            );
        }
    }

    // -- take-out dispatch --------------------------------------------

    /// Take the widget out of its slot, to run one of its own methods.
    pub fn take(&mut self, id: WidgetId) -> (r: Result<W, Error>)
        requires
            old(self).wf(),
        ensures
            final(self).wf(),
            final(self).rank() == old(self).rank(),
            final(self).top() == old(self).top(),
            match r {
                Ok(w) => {
                    &&& old(self)@.nodes.dom().contains(id)
                    &&& old(self)@.nodes[id].widget == Some(w)
                    &&& final(self)@ == (UiView {
                        nodes: with_widget(old(self)@.nodes, id, None),
                        ..old(self)@
                    })
                },
                Err(Error::StaleWidget) => {
                    &&& !old(self)@.nodes.dom().contains(id)
                    &&& final(self)@ == old(self)@
                },
                Err(Error::Busy) => {
                    &&& old(self)@.nodes.dom().contains(id)
                    &&& old(self)@.nodes[id].widget is None
                    &&& final(self)@ == old(self)@
                },
                Err(_) => false,
            },
            final(self).space_left() == old(self).space_left(),
            final(self).still_retired(old(self)),
    {
        if !self.arena.is_live(id) {
            return Err(Error::StaleWidget);
        }
        let w = self.arena.replace(id, None);
        proof {
            assert(self@.nodes == with_widget(old(self)@.nodes, id, None));
            assert(old(self)@.nodes.dom() =~= self@.nodes.dom());
            self.lemma_same_links(old(self));
        }
        match w {
            Some(w) => Ok(w),
            None => {
                assert(self@.nodes =~= old(self)@.nodes);
                Err(Error::Busy)
            },
        }
    }

    /// Put a widget back. A widget destroyed while it was out simply has
    /// nowhere to go back to, and is dropped here.
    pub fn untake(&mut self, id: WidgetId, widget: W)
        requires
            old(self).wf(),
        ensures
            final(self).wf(),
            final(self).rank() == old(self).rank(),
            final(self).top() == old(self).top(),
            final(self)@ == (UiView {
                nodes: if old(self)@.nodes.dom().contains(id) {
                    with_widget(old(self)@.nodes, id, Some(widget))
                } else {
                    old(self)@.nodes
                },
                ..old(self)@
            }),
            final(self).space_left() == old(self).space_left(),
            final(self).still_retired(old(self)),
    {
        if !self.arena.is_live(id) {
            return;
        }
        let _was = self.arena.replace(id, Some(widget));
        proof {
            assert(self@.nodes == with_widget(old(self)@.nodes, id, Some(widget)));
            assert(old(self)@.nodes.dom() =~= self@.nodes.dom());
            self.lemma_same_links(old(self));
        }
    }

    /// Borrow a widget.
    pub fn widget(&self, id: WidgetId) -> (r: Result<&W, Error>)
        ensures
            match r {
                Ok(w) => self@.nodes.dom().contains(id) && self@.nodes[id].widget == Some(*w),
                Err(Error::StaleWidget) => !self@.nodes.dom().contains(id),
                Err(Error::Busy) => self@.nodes.dom().contains(id) && self@.nodes[id].widget is None,
                Err(_) => false,
            },
    {
        if !self.arena.is_live(id) {
            return Err(Error::StaleWidget);
        }
        match self.arena.widget(id) {
            Some(w) => Ok(w),
            None => Err(Error::Busy),
        }
    }

    /// The live widgets, whether they are under the root or not, in the
    /// order of their slots.
    pub fn live_widgets(&self) -> (out: Vec<WidgetId>)
        requires
            self.wf(),
        ensures
            forall|id: WidgetId| #[trigger] out@.contains(id) <==> self@.nodes.dom().contains(id),
            forall|i: int, j: int|
                0 <= i < j < out@.len() ==> (#[trigger] out@[i]).slot() < (
                #[trigger] out@[j]).slot(),
    {
        self.arena.ids()
    }

    /// The number of live widgets.
    pub fn widget_count(&self) -> (n: usize)
        requires
            self.wf(),
        ensures
            self@.nodes.dom().finite(),
            n == self@.nodes.dom().len(),
    {
        self.arena.len()
    }
}

/// Replace what is in the slot of `id`.
pub open spec fn with_widget<W>(m: Nodes<W>, id: WidgetId, widget: Option<W>) -> Nodes<W> {
    m.insert(id, Entry { widget, state: m[id].state })
}

/// Taking a widget out and putting it back leaves the tree as it was.
pub proof fn take_then_untake<W>(m: Nodes<W>, id: WidgetId, w: W)
    requires
        m.dom().contains(id),
        m[id].widget == Some(w),
    ensures
        with_widget(with_widget(m, id, None), id, Some(w)) == m,
{
    assert(with_widget(with_widget(m, id, None), id, Some(w)) =~= m);
}

impl<W: Widget> Ui<W> {
    /// What the widget is, if it is live and in its slot.
    pub open spec fn role_at(&self, id: WidgetId) -> Option<Role> {
        if self@.nodes.dom().contains(id) && self@.nodes[id].widget is Some {
            Some(self@.nodes[id].widget->0.role_view())
        } else {
            None
        }
    }

    /// The widget's role, for introspection.
    pub fn role(&self, id: WidgetId) -> (r: Result<Role, Error>)
        ensures
            match r {
                Ok(role) => self.role_at(id) == Some(role),
                Err(Error::StaleWidget) => !self@.nodes.dom().contains(id),
                Err(Error::Busy) => self@.nodes.dom().contains(id) && self@.nodes[id].widget is None,
                Err(_) => false,
            },
    {
        match self.widget(id) {
            Ok(w) => Ok(w.role()),
            Err(e) => Err(e),
        }
    }

    /// Whether the widget reacts to input; a widget that is gone or out of
    /// its slot does not.
    pub fn is_enabled(&self, id: WidgetId) -> (r: bool)
        ensures
            r == self.enabled_at(id),
    {
        match self.widget(id) {
            Ok(w) => w.enabled(),
            Err(_) => false,
        }
    }

    /// Whether the widget reacts to input, in contracts.
    pub open spec fn enabled_at(&self, id: WidgetId) -> bool {
        &&& self@.nodes.dom().contains(id)
        &&& self@.nodes[id].widget is Some
        &&& self@.nodes[id].widget->0.enabled_view()
    }

    /// The record of a widget that is in its slot: its own, with the
    /// addressing name where it gives none.
    pub open spec fn access_at(&self, id: WidgetId) -> AccessView {
        named(self@.nodes[id].widget->0.access_view(), self@.nodes[id].state.name)
    }

    /// The widget's accessibility record.
    pub fn accessible(&self, id: WidgetId) -> (r: Result<Access, Error>)
        ensures
            match r {
                Ok(a) => {
                    &&& self@.nodes.dom().contains(id)
                    &&& self@.nodes[id].widget is Some
                    &&& a@ == self.access_at(id)
                },
                Err(Error::StaleWidget) => !self@.nodes.dom().contains(id),
                Err(Error::Busy) => self@.nodes.dom().contains(id) && self@.nodes[id].widget is None,
                Err(_) => false,
            },
    {
        match self.widget(id) {
            Ok(w) => {
                let mut a = w.accessible();
                if a.name.is_none() {
                    a.name = copy_text(&self.arena.state(id).name);
                }
                Ok(a)
            },
            Err(e) => Err(e),
        }
    }

    /// The widget's accessible name: what it calls itself, falling back to
    /// its addressing name. A widget that is out of its slot has none.
    pub fn name(&self, id: WidgetId) -> (r: Option<String>)
        ensures
            text_view(r) == (if self@.nodes.dom().contains(id) && self@.nodes[id].widget is Some {
                self.access_at(id).name
            } else {
                None
            }),
    {
        match self.accessible(id) {
            Ok(a) => a.name,
            Err(_) => None,
        }
    }

    /// One widget of the introspection tree, in contracts.
    pub open spec fn node_at(&self, id: WidgetId) -> NodeView {
        let st = self@.nodes[id].state;
        NodeView {
            id,
            role: self@.nodes[id].widget->0.role_view(),
            access: self.access_at(id),
            bounds: st.bounds,
            focusable: st.focusable,
            focused: st.focused,
            visible: self.shown(id),
            children: st.children,
        }
    }

    /// One node of the introspection tree.
    pub fn introspect_node(&self, id: WidgetId) -> (r: Result<Node, Error>)
        requires
            self.wf(),
        ensures
            match r {
                Ok(n) => {
                    &&& self@.nodes.dom().contains(id)
                    &&& self@.nodes[id].widget is Some
                    &&& n@ == self.node_at(id)
                },
                Err(Error::StaleWidget) => !self@.nodes.dom().contains(id),
                Err(Error::Busy) => self@.nodes.dom().contains(id) && self@.nodes[id].widget is None,
                Err(_) => false,
            },
    {
        let role = match self.role(id) {
            Ok(r) => r,
            Err(e) => {
                return Err(e);
            },
        };
        let access = match self.accessible(id) {
            Ok(a) => a,
            Err(e) => {
                return Err(e);
            },
        };
        let visible = self.is_visible(id);
        let children = self.children(id);
        let st = self.arena.state(id);
        Ok(
            Node {
                id,
                role,
                access,
                bounds: st.bounds,
                focusable: st.focusable,
                focused: st.focused,
                visible,
                children,
            },
        )
    }

    fn introspect_into(&self, id: WidgetId, out: &mut Vec<Node>)
        requires
            self.wf(),
            self@.nodes.dom().contains(id),
        ensures
            nodes_view(final(out)@) == nodes_view(old(out)@) + self.walk(
                present(self@.nodes, self.rank(), seq![id], self.rank()[id] + 1),
            ),
        decreases self.rank@[id],
    {
        let ghost m = self@.nodes;
        let ghost r = self.rank@;
        proof {
            lemma_present_one(m, r, id, r[id] + 1);
        }
        match self.introspect_node(id) {
            Ok(node) => {
                let kids = self.children(id);
                out.push(node);
                let mut i: usize = 0;
                proof {
                    assert(present(m, r, kids@.take(0), r[id]) =~= Seq::<WidgetId>::empty());
                    assert(nodes_view(out@) =~= nodes_view(old(out)@) + self.walk(
                        seq![id] + present(m, r, kids@.take(0), r[id]),
                    ));
                }
                while i < kids.len()
                    invariant
                        self.wf(),
                        m == self@.nodes,
                        r == self.rank@,
                        m.dom().contains(id),
                        kids@ == m[id].state.children,
                        i <= kids.len(),
                        nodes_view(out@) == nodes_view(old(out)@) + self.walk(
                            seq![id] + present(m, r, kids@.take(i as int), r[id]),
                        ),
                    decreases kids.len() - i,
                {
                    proof {
                        self.tree_shape();
                        lemma_present_step(m, r, self.top@, id, i as int);
                    }
                    let ghost before = out@;
                    self.introspect_into(kids[i], out);
                    proof {
                        let a = seq![id] + present(m, r, kids@.take(i as int), r[id]);
                        let b = present(m, r, seq![kids@[i as int]], r[kids@[i as int]] + 1);
                        assert(seq![id] + present(m, r, kids@.take(i + 1), r[id]) =~= a + b);
                        assert(self.walk(a + b) =~= self.walk(a) + self.walk(b));
                        assert(nodes_view(out@) =~= nodes_view(old(out)@) + self.walk(a + b));
                    }
                    i += 1;
                }
                assert(kids@.take(i as int) =~= kids@);
            },
            Err(_) => {
                assert(nodes_view(out@) =~= nodes_view(old(out)@) + self.walk(Seq::empty()));
            },
        }
    }

    /// The records of a run of widgets.
    pub open spec fn walk(&self, ids: Seq<WidgetId>) -> Seq<NodeView> {
        ids.map_values(|id: WidgetId| self.node_at(id))
    }

    /// The widgets the introspection walk meets, in paint order: the whole
    /// tree, but for what is under a widget that is out of its slot.
    pub open spec fn met(&self) -> Seq<WidgetId> {
        match self@.root {
            Some(root) => if self@.nodes.dom().contains(root) {
                present(self@.nodes, self.rank(), seq![root], self.rank()[root] + 1)
            } else {
                Seq::empty()
            },
            None => Seq::empty(),
        }
    }

    /// Walk the whole tree in paint order: one [`Node`] per widget.
    ///
    /// A widget that is out of its slot (one running a callback that asked
    /// to introspect) is skipped rather than failing the walk.
    pub fn introspect(&self) -> (out: Vec<Node>)
        requires
            self.wf(),
        ensures
            nodes_view(out@) == self.walk(self.met()),
    {
        let mut out: Vec<Node> = Vec::new();
        if let Some(root) = self.root {
            if self.arena.is_live(root) {
                self.introspect_into(root, &mut out);
            }
        }
        assert(nodes_view(out@) =~= self.walk(self.met()));
        out
    }
}

/// What a run of nodes holds.
pub open spec fn nodes_view(ns: Seq<Node>) -> Seq<NodeView> {
    ns.map_values(|n: Node| n@)
}

/// What is told of a widget is what the tree holds of it and what it says of
/// itself; the name it gives itself comes before the one it is known by.
pub proof fn a_node_tells_what_the_tree_holds<W: Widget>(ui: &Ui<W>, id: WidgetId)
    ensures
        ({
            let st = ui@.nodes[id].state;
            let says = ui@.nodes[id].widget->0.access_view();
            let n = ui.node_at(id);
            &&& n.id == id
            &&& n.role == ui@.nodes[id].widget->0.role_view()
            &&& n.bounds == st.bounds && n.children == st.children
            &&& n.focusable == st.focusable && n.focused == st.focused
            &&& n.visible == ui.shown(id)
            &&& n.access.value == says.value && n.access.actions == says.actions
            &&& says.name is Some ==> n.access.name == says.name
            &&& says.name is None ==> n.access.name == st.name
        }),
{
}

/// A widget is shown exactly when it is visible and what it is in is shown.
pub proof fn a_widget_is_shown_with_its_parent<W>(ui: &Ui<W>, p: WidgetId, c: WidgetId)
    requires
        ui.wf(),
        ui@.nodes.dom().contains(p),
        ui@.nodes.dom().contains(c),
        ui@.nodes[c].state.parent == Some(p),
    ensures
        ui.shown(c) <==> ui@.nodes[c].state.visible && ui.shown(p),
{
    ui.tree_shape();
    reveal(ranked);
    let a = ui.ancestors(p);
    let b = ui.ancestors(c);
    assert(b =~= seq![p] + a);
    assert(b[0] == p);
    if ui.shown(c) {
        assert forall|i: int| 0 <= i < a.len() implies ui@.nodes[#[trigger] a[i]].state.visible by {
            assert(b[i + 1] == a[i]);
        }
    }
    if ui@.nodes[c].state.visible && ui.shown(p) {
        assert forall|i: int| 0 <= i < b.len() implies ui@.nodes[#[trigger] b[i]].state.visible by {
            if i > 0 {
                assert(b[i] == a[i - 1]);
            }
        }
    }
}

} // verus!
