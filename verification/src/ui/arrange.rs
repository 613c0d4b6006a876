//! The layout pass: which widgets are measured and placed again, and what
//! the scene is told about it. Lengths are the caller's; what is kept here
//! is what changed.

use vstd::prelude::*;

use crate::arena::{NodeId, WidgetId, WidgetView};
use crate::dirty::Dirty;
use crate::tree::{with_state, Nodes};
use crate::ui::restyle::afresh;
use crate::ui::{Ui, UiView};

verus! {

/// What placing a widget asks for.
#[derive(Debug, Clone, Copy, PartialEq, Eq, Structural)]
pub struct Placed {
    /// The node that is to have the widget's new box: one message moves the
    /// widget and everything under it.
    pub moved: Option<NodeId>,
    /// The content group that is to clip to the widget's new size.
    pub fit: Option<NodeId>,
    /// Whether the widget is to lay its children out.
    pub inside: bool,
}

/// Whether a layout is due at a widget or under it.
pub open spec fn lays_out(st: WidgetView) -> bool {
    st.flags.layout || st.flags.sub_layout
}

/// Those of some widgets that take part in their parent's layout: a
/// collapsed one gives its box back and leaves no gap where it was.
pub open spec fn in_flow<W>(m: Nodes<W>, ids: Seq<WidgetId>) -> Seq<WidgetId>
    decreases ids.len(),
{
    if ids.len() == 0 {
        Seq::empty()
    } else {
        let head = in_flow(m, ids.drop_last());
        let id = ids.last();
        if m.dom().contains(id) && m[id].state.collapsed {
            head
        } else {
            head.push(id)
        }
    }
}

/// A widget that was placed. One of another size is laid out and painted
/// again; one that only moved is not.
pub open spec fn placed_state(st: WidgetView, resized: bool) -> WidgetView {
    if resized {
        WidgetView { flags: st.flags.with(afresh()), ..st }
    } else {
        st
    }
}

/// What placing a widget asks for.
pub open spec fn placing(st: WidgetView, moved: bool, resized: bool) -> Placed {
    Placed {
        moved: if moved || resized {
            st.node
        } else {
            None
        },
        fit: if resized && st.content_clip {
            st.content
        } else {
            None
        },
        inside: lays_out(placed_state(st, resized)),
    }
}

/// A widget whose children were laid out.
pub open spec fn rested(st: WidgetView) -> WidgetView {
    WidgetView {
        flags: Dirty { layout: false, sub_layout: false, ..st.flags },
        ..st
    }
}

impl<W> Ui<W> {
    /// The children of a widget that are measured and placed: those that
    /// are not collapsed, in paint order.
    pub fn flowing_children(&self, id: WidgetId) -> (out: Vec<WidgetId>)
        ensures
            out@ == in_flow(
                self@.nodes,
                if self@.nodes.dom().contains(id) {
                    self@.nodes[id].state.children
                } else {
                    Seq::empty()
                },
            ),
    {
        let kids = self.children(id);
        let mut out: Vec<WidgetId> = Vec::new();
        let mut i: usize = 0;
        assert(kids@.take(0) =~= Seq::<WidgetId>::empty());
        while i < kids.len()
            invariant
                i <= kids@.len(),
                out@ == in_flow(self@.nodes, kids@.take(i as int)),
            decreases kids@.len() - i,
        {
            proof {
                let head = kids@.take(i + 1);
                assert(head.drop_last() =~= kids@.take(i as int));
                assert(head.last() == kids@[i as int]);
            }
            if !self.is_collapsed(kids[i]) {
                out.push(kids[i]);
            }
            i += 1;
        }
        assert(kids@.take(i as int) =~= kids@);
        out
    }

    /// Whether there is anything to lay out.
    pub fn needs_layout(&self) -> (r: bool)
        requires
            self.wf(),
        ensures
            r == (match self@.root {
                Some(root) => self@.nodes.dom().contains(root) && lays_out(
                    self@.nodes[root].state,
                ),
                None => false,
            }),
    {
        match self.root {
            Some(root) => self.arena.is_live(root) && self.arena.state(root).flags.has(
                Dirty::layout() | Dirty::sub_layout(),
            ),
            None => false,
        }
    }

    /// Whether the remembered measurement of a widget still holds, where
    /// `same` says that it was made under the same constraints.
    pub fn recalls(&self, id: WidgetId, same: bool) -> (r: bool)
        requires
            self.wf(),
        ensures
            r == (same && self@.nodes.dom().contains(id) && self@.nodes[id].state.measured
                && !self@.nodes[id].state.flags.layout),
    {
        same && self.arena.is_live(id) && self.arena.state(id).measured && !self.arena.state(
            id,
        ).flags.layout
    }

    /// A widget was measured, and the answer is remembered.
    pub fn remember(&mut self, id: WidgetId)
        requires
            old(self).wf(),
        ensures
            final(self).wf(),
            final(self).rank() == old(self).rank(),
            final(self).top() == old(self).top(),
            final(self)@ == (UiView {
                nodes: if old(self)@.nodes.dom().contains(id) {
                    with_state(
                        old(self)@.nodes,
                        id,
                        WidgetView { measured: true, ..old(self)@.nodes[id].state },
                    )
                } else {
                    old(self)@.nodes
                },
                ..old(self)@
            }),
            final(self).space_left() == old(self).space_left(),
            final(self).still_retired(old(self)),
    {
        if !self.arena.is_live(id) {
            return;
        }
        let st = self.arena.state_mut(id);
        st.measured = true;
        proof {
            self.lemma_changed(
                old(self),
                id,
                WidgetView { measured: true, ..old(self)@.nodes[id].state },
            );
        }
    }

    /// Place a widget: it moved, has another size, or neither.
    pub fn place(&mut self, id: WidgetId, moved: bool, resized: bool) -> (r: Placed)
        requires
            old(self).wf(),
        ensures
            final(self).wf(),
            final(self).rank() == old(self).rank(),
            final(self).top() == old(self).top(),
            ({
                let m = old(self)@.nodes;
                if m.dom().contains(id) {
                    &&& r == placing(m[id].state, moved, resized)
                    &&& final(self)@ == (UiView {
                        nodes: with_state(m, id, placed_state(m[id].state, resized)),
                        ..old(self)@
                    })
                } else {
                    &&& r == (Placed { moved: None, fit: None, inside: false })
                    &&& final(self)@ == old(self)@
                }
            }),
            final(self).space_left() == old(self).space_left(),
            final(self).still_retired(old(self)),
    {
        if !self.arena.is_live(id) {
            return Placed { moved: None, fit: None, inside: false };
        }
        let st = self.arena.state_mut(id);
        if resized {
            st.flags.insert(Dirty::layout() | Dirty::paint());
        }
        proof {
            self.lemma_changed(
                old(self),
                id,
                placed_state(old(self)@.nodes[id].state, resized),
            );
        }
        let st = self.arena.state(id);
        Placed {
            moved: if moved || resized {
                st.node
            } else {
                None
            },
            fit: if resized && st.content_clip {
                st.content
            } else {
                None
            },
            inside: st.flags.has(Dirty::layout() | Dirty::sub_layout()),
        }
    }

    /// A widget has laid its children out.
    pub fn laid_out(&mut self, id: WidgetId)
        requires
            old(self).wf(),
        ensures
            final(self).wf(),
            final(self).rank() == old(self).rank(),
            final(self).top() == old(self).top(),
            final(self)@ == (UiView {
                nodes: if old(self)@.nodes.dom().contains(id) {
                    with_state(old(self)@.nodes, id, rested(old(self)@.nodes[id].state))
                } else {
                    old(self)@.nodes
                },
                ..old(self)@
            }),
            final(self).space_left() == old(self).space_left(),
            final(self).still_retired(old(self)),
    {
        if !self.arena.is_live(id) {
            return;
        }
        let st = self.arena.state_mut(id);
        st.flags.remove(Dirty::layout() | Dirty::sub_layout());
        proof {
            self.lemma_changed(old(self), id, rested(old(self)@.nodes[id].state));
        }
    }
}

/// Moving a widget whose layout has settled is one message: its children
/// stay where they are in it, and nothing is painted again.
pub proof fn moving_is_one_message(st: WidgetView)
    ensures
        placing(rested(st), true, false) == (Placed { moved: st.node, fit: None, inside: false }),
        placed_state(rested(st), false) == rested(st),
{
}

/// Placing a widget whose layout has settled where it is asks for nothing.
pub proof fn staying_put_is_free(st: WidgetView)
    ensures
        placing(rested(st), false, false) == (Placed { moved: None, fit: None, inside: false }),
        placed_state(rested(st), false) == rested(st),
{
}

} // verus!
