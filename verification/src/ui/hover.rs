//! Which widgets the pointer is over, and whom to tell when that changes.

use vstd::prelude::*;

use crate::arena::{WidgetId, WidgetView};
use crate::dirty::Dirty;
use crate::tree::{marked, with_state, Nodes};
use crate::ui::{among, keep_outside, outside, Ui, UiView};

verus! {

/// The last of `kids` that is shown and under the pointer: later children
/// are on top.
pub open spec fn topmost<W>(
    m: Nodes<W>,
    kids: Seq<WidgetId>,
    hit: Seq<WidgetId>,
) -> Option<WidgetId>
    decreases kids.len(),
{
    if kids.len() == 0 {
        None
    } else {
        let c = kids.last();
        if m.dom().contains(c) && m[c].state.visible && hit.contains(c) {
            Some(c)
        } else {
            topmost(m, kids.drop_last(), hit)
        }
    }
}

/// The chain of widgets under the pointer from `id` down: each is followed
/// by its topmost child that is under the pointer too.
pub open spec fn chain_from<W>(
    m: Nodes<W>,
    rank: Map<WidgetId, nat>,
    id: WidgetId,
    hit: Seq<WidgetId>,
) -> Seq<WidgetId>
    decreases rank[id],
{
    match topmost(m, m[id].state.children, hit) {
        Some(c) => if rank[c] < rank[id] {
            seq![id] + chain_from(m, rank, c, hit)
        } else {
            seq![id]
        },
        None => seq![id],
    }
}

proof fn lemma_topmost<W>(m: Nodes<W>, kids: Seq<WidgetId>, hit: Seq<WidgetId>)
    ensures
        topmost(m, kids, hit) matches Some(c) ==> kids.contains(c) && m.dom().contains(c),
    decreases kids.len(),
{
    if kids.len() > 0 {
        let head = kids.drop_last();
        lemma_topmost(m, head, hit);
        if let Some(c) = topmost(m, kids, hit) {
            if c == kids.last() {
                assert(kids[kids.len() - 1] == c);
            } else if head.contains(c) {
                let k = choose|k: int| 0 <= k < head.len() && head[k] == c;
                assert(kids[k] == c);
            }
        }
    }
}

/// `s` from its end to its start.
pub fn reversed(s: &Vec<WidgetId>) -> (out: Vec<WidgetId>)
    ensures
        out@ == s@.reverse(),
{
    let mut out: Vec<WidgetId> = Vec::new();
    let mut i: usize = s.len();
    while i > 0
        invariant
            i <= s.len(),
            out@.len() == s.len() - i,
            forall|k: int| 0 <= k < out@.len() ==> out@[k] == s@[s.len() - 1 - k],
        decreases i,
    {
        i -= 1;
        out.push(s[i]);
    }
    assert(out@ =~= s@.reverse());
    out
}

impl<W> Ui<W> {
    /// The chain of widgets under the pointer, outermost first. `hit` names
    /// the widgets whose own box the pointer is in.
    pub open spec fn chain(&self, hit: Seq<WidgetId>) -> Seq<WidgetId> {
        match self@.root {
            Some(root) => if self@.nodes.dom().contains(root) && hit.contains(root) {
                chain_from(self@.nodes, self.rank(), root, hit)
            } else {
                Seq::empty()
            },
            None => Seq::empty(),
        }
    }

    /// The chain of widgets under the pointer, outermost first. `hit` names
    /// the widgets whose own box the pointer is in; the pointer does not
    /// enter a hidden one.
    pub fn hit_chain(&self, hit: &Vec<WidgetId>) -> (out: Vec<WidgetId>)
        requires
            self.wf(),
        ensures
            out@ == self.chain(hit@),
    {
        let mut out: Vec<WidgetId> = Vec::new();
        let root = match self.root {
            Some(r) => r,
            None => {
                return out;
            },
        };
        if !self.arena.is_live(root) || !among(hit, root) {
            return out;
        }
        let ghost m = self@.nodes;
        let ghost r = self.rank@;
        let mut id = root;
        let mut more = true;
        while more
            invariant
                self.wf(),
                m == self@.nodes,
                r == self.rank@,
                m.dom().contains(id),
                more ==> out@ + chain_from(m, r, id, hit@) == chain_from(m, r, root, hit@),
                !more ==> out@ == chain_from(m, r, root, hit@),
            decreases (if more { 1int } else { 0int }), r[id],
        {
            let kids = &self.arena.state(id).children;
            let mut i: usize = kids.len();
            let mut next: Option<WidgetId> = None;
            assert(kids@.take(i as int) =~= kids@);
            while i > 0
                invariant_except_break
                    self.stored(),
                    m == self@.nodes,
                    i <= kids@.len(),
                    next is None,
                    topmost(m, kids@, hit@) == topmost(m, kids@.take(i as int), hit@),
                ensures
                    next == topmost(m, kids@, hit@),
                decreases i,
            {
                let c = kids[i - 1];
                assert(kids@.take(i as int).last() == c);
                assert(kids@.take(i as int).drop_last() =~= kids@.take(i - 1));
                if self.arena.is_live(c) && self.arena.state(c).visible && among(hit, c) {
                    next = Some(c);
                    break;
                }
                i -= 1;
            }
            let ghost whole = chain_from(m, r, id, hit@);
            let ghost before = out@;
            out.push(id);
            match next {
                Some(c) => {
                    proof {
                        lemma_topmost(m, kids@, hit@);
                        let k = choose|k: int| 0 <= k < kids@.len() && kids@[k] == c;
                        self.tree_shape();
                        crate::ui::lemma_child(m, r, self.top@, id, k);
                        assert(out@ + chain_from(m, r, c, hit@) =~= before + whole);
                    }
                    id = c;
                },
                None => {
                    assert(out@ =~= before + whole);
                    more = false;
                },
            }
        }
        out
    }

    /// Whom to tell when the pointer moves onto `chain`: the widgets it
    /// left, deepest first, and those it entered, outermost first.
    pub fn hover_changes(&self, chain: &Vec<WidgetId>) -> (r: (Vec<WidgetId>, Vec<WidgetId>))
        ensures
            r.0@ == outside(self@.hover, chain@).reverse(),
            r.1@ == outside(chain@, self@.hover),
    {
        let left = keep_outside(&self.hover_chain, chain);
        let entered = keep_outside(chain, &self.hover_chain);
        (reversed(&left), entered)
    }

    /// The widgets under the pointer, deepest first: the order in which a
    /// button or the pointer's leaving is reported.
    pub fn hovered_inside_out(&self) -> (out: Vec<WidgetId>)
        ensures
            out@ == self@.hover.reverse(),
    {
        reversed(&self.hover_chain)
    }

    /// The deepest widget under the pointer, which a scroll is offered to.
    pub fn deepest(&self) -> (r: Option<WidgetId>)
        ensures
            r == (if self@.hover.len() > 0 {
                Some(self@.hover.last())
            } else {
                None
            }),
    {
        let n: usize = self.hover_chain.len();
        if n > 0 {
            Some(self.hover_chain[n - 1])
        } else {
            None
        }
    }

    /// Remember the widgets under the pointer.
    pub fn set_hover(&mut self, chain: Vec<WidgetId>)
        requires
            old(self).wf(),
        ensures
            final(self).wf(),
            final(self).rank() == old(self).rank(),
            final(self).top() == old(self).top(),
            final(self)@ == (UiView { hover: chain@, ..old(self)@ }),
            final(self).space_left() == old(self).space_left(),
            final(self).still_retired(old(self)),
    {
        self.hover_chain = chain;
    }

    /// Remember whether the pointer is inside `id`.
    pub fn set_hovered(&mut self, id: WidgetId, hovered: bool)
        requires
            old(self).wf(),
        ensures
            final(self).wf(),
            final(self).rank() == old(self).rank(),
            final(self).top() == old(self).top(),
            final(self)@ == (UiView {
                nodes: if old(self)@.nodes.dom().contains(id) {
                    with_state(
                        old(self)@.nodes,
                        id,
                        WidgetView { hovered, ..old(self)@.nodes[id].state },
                    )
                } else {
                    old(self)@.nodes
                },
                ..old(self)@
            }),
            final(self).space_left() == old(self).space_left(),
            final(self).still_retired(old(self)),
    {
        if !self.arena.is_live(id) {
            return;
        }
        let st = self.arena.state_mut(id);
        st.hovered = hovered;
        proof {
            self.lemma_changed(
                old(self),
                id,
                WidgetView { hovered, ..old(self)@.nodes[id].state },
            );
        }
    }

    /// Make the widget reachable (or not) by Tab.
    pub fn set_focusable(&mut self, id: WidgetId, focusable: bool)
        requires
            old(self).wf(),
        ensures
            final(self).wf(),
            final(self).rank() == old(self).rank(),
            final(self).top() == old(self).top(),
            final(self)@ == (UiView {
                nodes: if old(self)@.nodes.dom().contains(id) {
                    with_state(
                        old(self)@.nodes,
                        id,
                        WidgetView { focusable, ..old(self)@.nodes[id].state },
                    )
                } else {
                    old(self)@.nodes
                },
                ..old(self)@
            }),
            final(self).space_left() == old(self).space_left(),
            final(self).still_retired(old(self)),
    {
        if !self.arena.is_live(id) {
            return;
        }
        let st = self.arena.state_mut(id);
        st.focusable = focusable;
        proof {
            self.lemma_changed(
                old(self),
                id,
                WidgetView { focusable, ..old(self)@.nodes[id].state },
            );
        }
    }

    fn put_collapsed(&mut self, id: WidgetId, collapsed: bool)
        requires
            old(self).wf(),
            old(self)@.nodes.dom().contains(id),
        ensures
            final(self).wf(),
            final(self).rank() == old(self).rank(),
            final(self).top() == old(self).top(),
            final(self)@ == (UiView {
                nodes: with_state(
                    old(self)@.nodes,
                    id,
                    WidgetView { collapsed, ..old(self)@.nodes[id].state },
                ),
                ..old(self)@
            }),
            final(self).space_left() == old(self).space_left(),
            final(self).still_retired(old(self)),
    {
        let st = self.arena.state_mut(id);
        st.collapsed = collapsed;
        proof {
            self.lemma_changed(
                old(self),
                id,
                WidgetView { collapsed, ..old(self)@.nodes[id].state },
            );
        }
    }

    /// The map after `id` was folded away or put back, before it is hidden
    /// or shown: its own box and its parent's are laid out again.
    pub open spec fn folded(&self, id: WidgetId, collapsed: bool) -> Nodes<W> {
        let m = self@.nodes;
        let a = with_state(m, id, WidgetView { collapsed, ..m[id].state });
        let b = marked(
            a,
            self.rank(),
            self.top(),
            id,
            Dirty { layout: true, paint: true, ..Dirty::clean() },
        );
        match m[id].state.parent {
            Some(p) => marked(
                b,
                self.rank(),
                self.top(),
                p,
                Dirty { layout: true, ..Dirty::clean() },
            ),
            None => b,
        }
    }

    /// Take a widget out of its parent's layout, or put it back, and hide or
    /// show it with that. Nothing happens if it is that way already, nor to
    /// a stale id. Says whether anything changed.
    ///
    /// The visibility itself is [`Ui::set_node_visible`]'s to set; this is
    /// the layout's half.
    pub fn fold(&mut self, id: WidgetId, collapsed: bool) -> (changed: bool)
        requires
            old(self).wf(),
        ensures
            final(self).wf(),
            final(self).rank() == old(self).rank(),
            final(self).top() == old(self).top(),
            changed == (old(self)@.nodes.dom().contains(id) && old(self)@.nodes[id].state.collapsed
                != collapsed),
            changed ==> final(self)@ == (UiView {
                nodes: old(self).folded(id, collapsed),
                ..old(self)@
            }),
            !changed ==> final(self)@ == old(self)@,
            final(self).space_left() == old(self).space_left(),
            final(self).still_retired(old(self)),
    {
        if !self.arena.is_live(id) || self.arena.state(id).collapsed == collapsed {
            return false;
        }
        let parent = self.arena.state(id).parent;
        self.put_collapsed(id, collapsed);
        self.mark(id, Dirty::layout() | Dirty::paint());
        if let Some(p) = parent {
            self.mark(p, Dirty::layout());
        }
        true
    }

    /// Take a widget out of its parent's layout, or put it back: its
    /// siblings share the space, and it is hidden as well, because a
    /// subtree with no box must not be hit-tested or reached by Tab either.
    pub fn set_collapsed(&mut self, id: WidgetId, collapsed: bool)
        requires
            old(self).wf(),
        ensures
            final(self).wf(),
            final(self).rank() == old(self).rank(),
            final(self).top() == old(self).top(),
            !old(self)@.nodes.dom().contains(id) || old(self)@.nodes[id].state.collapsed == collapsed
                ==> final(self)@ == old(self)@,
            old(self)@.nodes.dom().contains(id) && old(self)@.nodes[id].state.collapsed != collapsed
                ==> final(self)@ == crate::ui::focus::revealed(
                (UiView { nodes: old(self).folded(id, collapsed), ..old(self)@ }),
                old(self).rank(),
                old(self).top(),
                id,
                !collapsed,
            ),
            final(self).space_left() == old(self).space_left(),
            final(self).still_retired(old(self)),
    {
        if self.fold(id, collapsed) {
            self.set_node_visible(id, !collapsed);
        }
    }
}

} // verus!
