//! Marking the tree for what concerns all of it: a new look, or a new window
//! size.

use vstd::prelude::*;

use crate::arena::WidgetId;
use crate::dirty::Dirty;
use crate::tree::{flagged, marked, trail, Nodes};
use crate::ui::{Ui, UiView};

verus! {

/// What a new look marks: everything has to be measured and painted.
pub open spec fn afresh() -> Dirty {
    Dirty { layout: true, paint: true, ..Dirty::clean() }
}

/// The map after each of `ids` was marked, in order.
pub open spec fn marked_each<W>(
    m: Nodes<W>,
    rank: Map<WidgetId, nat>,
    top: nat,
    ids: Seq<WidgetId>,
    flags: Dirty,
) -> Nodes<W>
    decreases ids.len(),
{
    if ids.len() == 0 {
        m
    } else {
        marked(marked_each(m, rank, top, ids.drop_last(), flags), rank, top, ids.last(), flags)
    }
}

/// The root and everything under it; nothing where there is no root.
pub open spec fn everything<W>(ui: &Ui<W>) -> Seq<WidgetId> {
    match ui@.root {
        Some(root) => if ui@.nodes.dom().contains(root) {
            ui.subtree(root)
        } else {
            seq![root]
        },
        None => Seq::empty(),
    }
}

impl<W> Ui<W> {
    /// Have the whole tree measured and painted again: the look changed.
    pub fn restyle(&mut self)
        requires
            old(self).wf(),
        ensures
            final(self).wf(),
            final(self).rank() == old(self).rank(),
            final(self).top() == old(self).top(),
            final(self)@ == (UiView {
                nodes: marked_each(
                    old(self)@.nodes,
                    old(self).rank(),
                    old(self).top(),
                    everything(old(self)),
                    afresh(),
                ),
                ..old(self)@
            }),
            final(self).space_left() == old(self).space_left(),
            final(self).still_retired(old(self)),
            trail(old(self)@.nodes) ==> trail(final(self)@.nodes),
    {
        let ids: Vec<WidgetId> = match self.root() {
            Some(root) => self.collect_subtree(root),
            None => Vec::new(),
        };
        let flags = Dirty {
            layout: true,
            paint: true,
            tree: false,
            sub_layout: false,
            sub_paint: false,
            sub_tree: false,
        };
        assert(flags == afresh());
        assert(ids@ =~= everything(old(self)));
        let mut i: usize = 0;
        while i < ids.len()
            invariant
                i <= ids@.len(),
                flags == afresh(),
                self.wf(),
                self.rank() == old(self).rank(),
                self.top() == old(self).top(),
                self@ == (UiView {
                    nodes: marked_each(
                        old(self)@.nodes,
                        old(self).rank(),
                        old(self).top(),
                        ids@.take(i as int),
                        flags,
                    ),
                    ..old(self)@
                }),
                self.space_left() == old(self).space_left(),
                self.still_retired(old(self)),
                trail(old(self)@.nodes) ==> trail(self@.nodes),
            decreases ids.len() - i,
        {
            self.mark(ids[i], flags);
            assert(ids@.take(i + 1).drop_last() =~= ids@.take(i as int));
            i += 1;
        }
        assert(ids@.take(i as int) =~= ids@);
    }

    /// Have the tree laid out again from the root: the window has another
    /// size.
    pub fn resized(&mut self)
        requires
            old(self).wf(),
        ensures
            final(self).wf(),
            final(self).rank() == old(self).rank(),
            final(self).top() == old(self).top(),
            final(self)@ == (match old(self)@.root {
                Some(root) => UiView {
                    nodes: marked(
                        old(self)@.nodes,
                        old(self).rank(),
                        old(self).top(),
                        root,
                        afresh(),
                    ),
                    ..old(self)@
                },
                None => old(self)@,
            }),
            final(self).space_left() == old(self).space_left(),
            final(self).still_retired(old(self)),
            trail(old(self)@.nodes) ==> trail(final(self)@.nodes),
    {
        if let Some(root) = self.root() {
            let flags = Dirty {
                layout: true,
                paint: true,
                tree: false,
                sub_layout: false,
                sub_paint: false,
                sub_tree: false,
            };
            assert(flags == afresh());
            self.mark(root, flags);
        }
    }
}

proof fn lemma_marked_each<W>(
    m: Nodes<W>,
    rank: Map<WidgetId, nat>,
    top: nat,
    ids: Seq<WidgetId>,
    x: WidgetId,
)
    requires
        m.dom().contains(x),
    ensures
        marked_each(m, rank, top, ids, afresh()).dom() == m.dom(),
        m[x].state.flags.layout ==> marked_each(m, rank, top, ids, afresh())[x].state.flags.layout,
        m[x].state.flags.paint ==> marked_each(m, rank, top, ids, afresh())[x].state.flags.paint,
        ids.contains(x) ==> marked_each(m, rank, top, ids, afresh())[x].state.flags.layout
            && marked_each(m, rank, top, ids, afresh())[x].state.flags.paint,
    decreases ids.len(),
{
    reveal(flagged);
    if ids.len() > 0 {
        let rest = ids.drop_last();
        lemma_marked_each(m, rank, top, rest, x);
        let before = marked_each(m, rank, top, rest, afresh());
        assert(marked(before, rank, top, ids.last(), afresh()).dom() =~= before.dom());
        if ids.contains(x) && x != ids.last() {
            let i = choose|i: int| 0 <= i < ids.len() && ids[i] == x;
            assert(rest[i] == x);
        }
    }
}

/// A new look reaches every widget of the tree: none is left as it was.
pub proof fn a_new_look_reaches_everything<W>(ui: &Ui<W>, x: WidgetId)
    requires
        ui.wf(),
        ui@.nodes.dom().contains(x),
        everything(ui).contains(x),
    ensures
        ({
            let after = marked_each(ui@.nodes, ui.rank(), ui.top(), everything(ui), afresh());
            after[x].state.flags.layout && after[x].state.flags.paint
        }),
{
    lemma_marked_each(ui@.nodes, ui.rank(), ui.top(), everything(ui), x);
}

} // verus!
