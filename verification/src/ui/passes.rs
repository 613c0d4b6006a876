//! The passes that bring the server's scene in line with the tree: groups
//! for new widgets, their order and visibility, the window's clip, and the
//! widgets that have to paint again.

use vstd::prelude::*;

use crate::arena::{Entry, NodeId, WidgetId, WidgetView};
use crate::dirty::Dirty;
use crate::tree::{
    forest, lemma_forest_bound, lemma_forest_closed, lemma_forest_concat, lemma_forest_live,
    lemma_forest_same, lemma_same_shape, lemma_subtree, lemma_subtree_distinct, linked, paints,
    ranked, restructures, same_shape, subtree, trail, with_state, Nodes,
};
use crate::ui::{lemma_child, Op, Ui, UiView};

verus! {

/// The window's own node, which the root's group hangs off.
pub open spec fn window_node() -> NodeId {
    NodeId(1)
}

// ---------------------------------------------------------------------
// what each step does to the tree
// ---------------------------------------------------------------------

/// The widgets that have no group of their own yet.
pub open spec fn ungrouped<W>(m: Nodes<W>) -> Set<WidgetId> {
    m.dom().filter(|x: WidgetId| m[x].state.node is None)
}

/// The widgets that have no group for their children yet.
pub open spec fn childless<W>(m: Nodes<W>) -> Set<WidgetId> {
    m.dom().filter(|x: WidgetId| m[x].state.content is None)
}

/// How many scene nodes the widgets may still need.
pub open spec fn lacking<W>(m: Nodes<W>) -> nat {
    ungrouped(m).len() + childless(m).len()
}

/// Change one widget's state, queue `ops` and hand out `made` nodes.
pub open spec fn stepped<W>(
    ui: UiView<W>,
    id: WidgetId,
    st: WidgetView,
    ops: Seq<Op>,
    made: int,
) -> UiView<W> {
    UiView {
        nodes: with_state(ui.nodes, id, st),
        ops: ui.ops + ops,
        next_node: ui.next_node + made,
        ..ui
    }
}

/// The tree after `id` got a group of its own, under its parent's content
/// group or else under the window.
pub open spec fn grouped<W>(ui: UiView<W>, id: WidgetId) -> UiView<W> {
    let st = ui.nodes[id].state;
    if st.node is Some {
        ui
    } else {
        let node = NodeId(ui.next_node as u32);
        let parent = match st.parent {
            Some(p) => if ui.nodes.dom().contains(p) && ui.nodes[p].state.content is Some {
                ui.nodes[p].state.content->0
            } else {
                window_node()
            },
            None => window_node(),
        };
        stepped(
            ui,
            id,
            WidgetView { node: Some(node), ..st },
            seq![Op::CreateGroup { node, parent, before: NodeId::nothing() }],
            1,
        )
    }
}

/// The tree after the server was told whether `id` is shown. A group is
/// created visible, so only a value that differs from that, or from the
/// last one sent, costs a message.
pub open spec fn disclosed<W>(ui: UiView<W>, id: WidgetId) -> UiView<W> {
    let st = ui.nodes[id].state;
    let sent = match st.sent_visible {
        Some(v) => v,
        None => true,
    };
    if st.node is None || sent == st.visible {
        ui
    } else {
        stepped(
            ui,
            id,
            WidgetView { sent_visible: Some(st.visible), ..st },
            seq![Op::SetVisible { node: st.node->0, visible: st.visible }],
            0,
        )
    }
}

/// The tree after `id` got a group for its children, made after its own
/// painted nodes so those stay underneath.
pub open spec fn opened<W>(ui: UiView<W>, id: WidgetId) -> UiView<W> {
    let st = ui.nodes[id].state;
    if st.content is Some || st.node is None {
        ui
    } else {
        let node = NodeId(ui.next_node as u32);
        let made = seq![
            Op::CreateGroup { node, parent: st.node->0, before: NodeId::nothing() },
        ];
        let clip = if st.content_clip {
            seq![Op::SetClip { node, clip: true }]
        } else {
            Seq::empty()
        };
        stepped(
            ui,
            id,
            WidgetView { content: Some(node), ..st },
            made + clip + seq![Op::Fit { widget: id, node }],
            1,
        )
    }
}

/// The tree after the group of `c` was put into `content` in front of
/// `before`: made there if there is none, and moved there unless that is
/// where it was put last.
pub open spec fn put<W>(
    ui: UiView<W>,
    content: NodeId,
    c: WidgetId,
    before: NodeId,
) -> UiView<W> {
    let st = ui.nodes[c].state;
    match st.node {
        Some(node) => stepped(
            ui,
            c,
            WidgetView { attached: Some((content, before)), ..st },
            if st.attached == Some((content, before)) {
                Seq::empty()
            } else {
                seq![Op::Reparent { node, parent: content, before }]
            },
            0,
        ),
        None => {
            let node = NodeId(ui.next_node as u32);
            stepped(
                ui,
                c,
                WidgetView { node: Some(node), attached: Some((content, before)), ..st },
                seq![Op::CreateGroup { node, parent: content, before }],
                1,
            )
        },
    }
}

/// The tree after the groups of `kids` were put into `content`, the last
/// one in front of `before` and each in front of the one that follows it.
pub open spec fn lined_up<W>(
    ui: UiView<W>,
    content: NodeId,
    kids: Seq<WidgetId>,
    before: NodeId,
) -> UiView<W>
    decreases kids.len(),
{
    if kids.len() == 0 {
        ui
    } else {
        let c = kids.last();
        let n = put(ui, content, c, before);
        lined_up(n, content, kids.drop_last(), n.nodes[c].state.node->0)
    }
}

/// The tree after the groups of the children of `id` were brought in line
/// with the widget's children.
pub open spec fn arranged<W>(ui: UiView<W>, id: WidgetId) -> UiView<W> {
    let kids = ui.nodes[id].state.children;
    let o = opened(ui, id);
    if kids.len() == 0 || o.nodes[id].state.content is None {
        ui
    } else {
        lined_up(o, o.nodes[id].state.content->0, kids, NodeId::nothing())
    }
}

/// The flags the tree pass clears.
pub open spec fn tree_flags() -> Dirty {
    Dirty { tree: true, sub_tree: true, ..Dirty::clean() }
}

/// The flags the paint pass clears.
pub open spec fn paint_flags() -> Dirty {
    Dirty { paint: true, sub_paint: true, ..Dirty::clean() }
}

/// One widget without some of its flags.
pub open spec fn cleared<W>(ui: UiView<W>, id: WidgetId, flags: Dirty) -> UiView<W> {
    let st = ui.nodes[id].state;
    stepped(ui, id, WidgetView { flags: st.flags.without(flags), ..st }, Seq::empty(), 0)
}

/// The tree after the tree pass went through each of `ids` in turn. It
/// enters only a widget with something to restructure in it.
pub open spec fn restructured<W>(
    ui: UiView<W>,
    rank: Map<WidgetId, nat>,
    ids: Seq<WidgetId>,
    bound: nat,
) -> UiView<W>
    decreases bound, ids.len(),
{
    if ids.len() == 0 {
        ui
    } else {
        let id = ids[0];
        let st = ui.nodes[id].state;
        let next = if ui.nodes.dom().contains(id) && rank[id] < bound && restructures(st) {
            let a = disclosed(grouped(ui, id), id);
            let b = if st.flags.tree {
                arranged(a, id)
            } else {
                a
            };
            cleared(restructured(b, rank, st.children, rank[id]), id, tree_flags())
        } else {
            ui
        };
        restructured(next, rank, ids.drop_first(), bound)
    }
}

impl<W> Ui<W> {
    /// Whether the ids of scene nodes suffice for one more pass.
    pub open spec fn nodes_suffice(&self) -> bool {
        self@.next_node + lacking(self@.nodes) <= 0xffff_ffff
    }

    /// Whether the ids of scene nodes certainly suffice for one more pass:
    /// there are two left for every widget.
    pub fn has_nodes_left(&self) -> (r: bool)
        requires
            self.wf(),
        ensures
            r ==> self.nodes_suffice(),
            r == (self@.next_node + 2 * self@.nodes.dom().len() <= 0xffff_ffff),
    {
        let n: usize = self.widget_count();
        proof {
            let d = self@.nodes.dom();
            vstd::set_lib::lemma_len_subset(ungrouped(self@.nodes), d);
            vstd::set_lib::lemma_len_subset(childless(self@.nodes), d);
        }
        let left: u64 = 0xffff_ffff - self.next_node as u64;
        n as u64 <= left / 2
    }

    /// What one step of a pass leaves alone, and how it uses up nodes.
    spec fn kept(&self, before: &Ui<W>) -> bool {
        &&& self.wf()
        &&& self.rank@ == before.rank@
        &&& self.top@ == before.top@
        &&& same_shape(before@.nodes, self@.nodes)
        &&& self@.next_node + lacking(self@.nodes) == before@.next_node + lacking(before@.nodes)
        &&& self.space_left() == before.space_left()
        &&& self.still_retired(before)
    }

    proof fn lemma_kept_trans(&self, mid: &Ui<W>, before: &Ui<W>)
        requires
            mid.kept(before),
            self.kept(mid),
        ensures
            self.kept(before),
    {
    }

    /// One step of a pass: change the state of `id`.
    proof fn lemma_step(&self, before: &Ui<W>, id: WidgetId, st: WidgetView, made: int)
        requires
            before.wf(),
            before@.nodes.dom().contains(id),
            self.stored(),
            self.rank@ == before.rank@,
            self.top@ == before.top@,
            self@.nodes == with_state(before@.nodes, id, st),
            self@.next_node == before@.next_node + made,
            st.parent == before@.nodes[id].state.parent,
            st.children == before@.nodes[id].state.children,
            ({
                let was = before@.nodes[id].state;
                let a = was.node is None && st.node is Some;
                let b = was.content is None && st.content is Some;
                &&& (was.node is None) == (st.node is None) || a
                &&& (was.content is None) == (st.content is None) || b
                &&& made == (if a {
                    1int
                } else {
                    0int
                }) + (if b {
                    1int
                } else {
                    0int
                })
            }),
            self.space_left() == before.space_left(),
            self.still_retired(before),
        ensures
            self.kept(before),
    {
        let m = before@.nodes;
        let n = self@.nodes;
        assert(m.dom() =~= n.dom());
        self.lemma_same_links(before);
        before.arena.finite();
        let was = m[id].state;
        if was.node is None && st.node is Some {
            assert(ungrouped(n) =~= ungrouped(m).remove(id));
        } else {
            assert(ungrouped(n) =~= ungrouped(m));
        }
        if was.content is None && st.content is Some {
            assert(childless(n) =~= childless(m).remove(id));
        } else {
            assert(childless(n) =~= childless(m));
        }
    }

    /// A scene node for a widget that still lacks one.
    pub(super) fn alloc_node(&mut self) -> (node: NodeId)
        requires
            old(self).stored(),
            old(self)@.next_node < 0xffff_ffff,
        ensures
            final(self).stored(),
            final(self).rank() == old(self).rank(),
            final(self).top() == old(self).top(),
            node == NodeId(old(self)@.next_node as u32),
            final(self)@ == (UiView { next_node: old(self)@.next_node + 1, ..old(self)@ }),
            final(self).space_left() == old(self).space_left(),
            final(self).still_retired(old(self)),
    {
        let node = NodeId(self.next_node);
        self.next_node = self.next_node + 1;
        node
    }

    proof fn lemma_node_left(&self, id: WidgetId)
        requires
            self.wf(),
            self.nodes_suffice(),
            self@.nodes.dom().contains(id),
            self@.nodes[id].state.node is None || self@.nodes[id].state.content is None,
        ensures
            self@.next_node < 0xffff_ffff,
    {
        self.arena.finite();
        let m = self@.nodes;
        if m[id].state.node is None {
            assert(ungrouped(m).contains(id));
            vstd::set_lib::lemma_set_empty_equivalency_len(ungrouped(m));
        } else {
            assert(childless(m).contains(id));
            vstd::set_lib::lemma_set_empty_equivalency_len(childless(m));
        }
    }

    fn ensure_group(&mut self, id: WidgetId)
        requires
            old(self).wf(),
            old(self).nodes_suffice(),
            old(self)@.nodes.dom().contains(id),
        ensures
            final(self).kept(old(self)),
            final(self)@ == grouped(old(self)@, id),
    {
        if self.arena.state(id).node.is_some() {
            return;
        }
        let parent = match self.arena.state(id).parent {
            Some(p) => if self.arena.is_live(p) {
                match self.arena.state(p).content {
                    Some(c) => c,
                    None => NodeId(1),
                }
            } else {
                NodeId(1)
            },
            None => NodeId(1),
        };
        let ghost st = WidgetView {
            node: Some(NodeId(self@.next_node as u32)),
            ..self@.nodes[id].state
        };
        proof {
            self.lemma_node_left(id);
        }
        let node = self.alloc_node();
        {
            let s = self.arena.state_mut(id);
            s.node = Some(node);
        }
        self.ops.push(Op::CreateGroup { node, parent, before: NodeId::none() });
        proof {
            assert(self@.ops =~= grouped(old(self)@, id).ops);
            self.lemma_step(old(self), id, st, 1);
        }
    }

    fn sync_visible(&mut self, id: WidgetId)
        requires
            old(self).wf(),
            old(self)@.nodes.dom().contains(id),
        ensures
            final(self).kept(old(self)),
            final(self)@ == disclosed(old(self)@, id),
    {
        let node = match self.arena.state(id).node {
            Some(n) => n,
            None => {
                return;
            },
        };
        let want = self.arena.state(id).visible;
        let sent = match self.arena.state(id).sent_visible {
            Some(v) => v,
            None => true,
        };
        if sent == want {
            return;
        }
        let ghost st = WidgetView { sent_visible: Some(want), ..self@.nodes[id].state };
        {
            let s = self.arena.state_mut(id);
            s.sent_visible = Some(want);
        }
        self.ops.push(Op::SetVisible { node, visible: want });
        proof {
            assert(self@.ops =~= disclosed(old(self)@, id).ops);
            self.lemma_step(old(self), id, st, 0);
        }
    }

    fn ensure_content(&mut self, id: WidgetId)
        requires
            old(self).wf(),
            old(self).nodes_suffice(),
            old(self)@.nodes.dom().contains(id),
        ensures
            final(self).kept(old(self)),
            final(self)@ == opened(old(self)@, id),
    {
        if self.arena.state(id).content.is_some() {
            return;
        }
        let parent = match self.arena.state(id).node {
            Some(n) => n,
            None => {
                return;
            },
        };
        let clip = self.arena.state(id).content_clip;
        let ghost st = WidgetView {
            content: Some(NodeId(self@.next_node as u32)),
            ..self@.nodes[id].state
        };
        proof {
            self.lemma_node_left(id);
        }
        let node = self.alloc_node();
        {
            let s = self.arena.state_mut(id);
            s.content = Some(node);
        }
        self.ops.push(Op::CreateGroup { node, parent, before: NodeId::none() });
        if clip {
            self.ops.push(Op::SetClip { node, clip: true });
        }
        self.ops.push(Op::Fit { widget: id, node });
        proof {
            assert(self@.ops =~= opened(old(self)@, id).ops);
            self.lemma_step(old(self), id, st, 1);
        }
    }

    fn put_child(&mut self, content: NodeId, c: WidgetId, before: NodeId) -> (node: NodeId)
        requires
            old(self).wf(),
            old(self).nodes_suffice(),
            old(self)@.nodes.dom().contains(c),
        ensures
            final(self).kept(old(self)),
            final(self)@ == put(old(self)@, content, c, before),
            final(self)@.nodes[c].state.node == Some(node),
    {
        let existing = self.arena.state(c).node;
        match existing {
            Some(node) => {
                let moved = match self.arena.state(c).attached {
                    Some(at) => at.0 != content || at.1 != before,
                    None => true,
                };
                let ghost st = WidgetView {
                    attached: Some((content, before)),
                    ..self@.nodes[c].state
                };
                {
                    let s = self.arena.state_mut(c);
                    s.attached = Some((content, before));
                }
                if moved {
                    self.ops.push(Op::Reparent { node, parent: content, before });
                }
                proof {
                    assert(self@.ops =~= put(old(self)@, content, c, before).ops);
                    self.lemma_step(old(self), c, st, 0);
                }
                node
            },
            None => {
                let ghost st = WidgetView {
                    node: Some(NodeId(self@.next_node as u32)),
                    attached: Some((content, before)),
                    ..self@.nodes[c].state
                };
                proof {
                    self.lemma_node_left(c);
                }
                let node = self.alloc_node();
                {
                    let s = self.arena.state_mut(c);
                    s.node = Some(node);
                    s.attached = Some((content, before));
                }
                self.ops.push(Op::CreateGroup { node, parent: content, before });
                proof {
                    assert(self@.ops =~= put(old(self)@, content, c, before).ops);
                    self.lemma_step(old(self), c, st, 1);
                }
                node
            },
        }
    }

    /// Bring the scene's child order in line with the widget's.
    fn sync_children(&mut self, id: WidgetId)
        requires
            old(self).wf(),
            old(self).nodes_suffice(),
            old(self)@.nodes.dom().contains(id),
        ensures
            final(self).kept(old(self)),
            final(self)@ == arranged(old(self)@, id),
    {
        let kids = self.children(id);
        if kids.len() == 0 {
            return;
        }
        let ghost ui0 = *self;
        self.ensure_content(id);
        let ghost ui1 = *self;
        let content = match self.arena.state(id).content {
            Some(c) => c,
            None => {
                return;
            },
        };
        let ghost o = self@;
        let ghost all = kids@;
        // Walk backwards so `before` always names a sibling already in
        // place.
        let mut before = NodeId::none();
        let mut i: usize = kids.len();
        assert(all.take(i as int) =~= all);
        while i > 0
            invariant
                ui1.kept(&ui0),
                self.kept(&ui1),
                ui1.nodes_suffice(),
                all == kids@,
                i <= all.len(),
                ui1@.nodes.dom().contains(id),
                all == ui1@.nodes[id].state.children,
                lined_up(self@, content, all.take(i as int), before) == lined_up(
                    o,
                    content,
                    all,
                    NodeId::nothing(),
                ),
            decreases i,
        {
            let ghost mid = *self;
            proof {
                ui1.tree_shape();
                lemma_child(ui1@.nodes, ui1.rank@, ui1.top@, id, i - 1);
                assert(self@.nodes.dom().contains(all[i - 1]));
                assert(all.take(i as int).last() == all[i - 1]);
                assert(all.take(i as int).drop_last() =~= all.take(i - 1));
            }
            before = self.put_child(content, kids[i - 1], before);
            proof {
                self.lemma_kept_trans(&mid, &ui1);
            }
            i -= 1;
        }
        proof {
            self.lemma_kept_trans(&ui1, &ui0);
        }
    }

    fn clear_flags(&mut self, id: WidgetId, flags: Dirty)
        requires
            old(self).wf(),
            old(self)@.nodes.dom().contains(id),
        ensures
            final(self).kept(old(self)),
            final(self)@ == cleared(old(self)@, id, flags),
    {
        let ghost st = WidgetView {
            flags: self@.nodes[id].state.flags.without(flags),
            ..self@.nodes[id].state
        };
        {
            let s = self.arena.state_mut(id);
            s.flags.remove(flags);
        }
        proof {
            assert(self@.ops =~= cleared(old(self)@, id, flags).ops);
            self.lemma_step(old(self), id, st, 0);
        }
    }

    /// Create, reparent and show the scene groups of structurally dirty
    /// subtrees.
    fn pass_tree(&mut self, id: WidgetId)
        requires
            old(self).wf(),
            old(self).nodes_suffice(),
            old(self)@.nodes.dom().contains(id),
        ensures
            final(self).kept(old(self)),
            final(self)@ == restructured(
                old(self)@,
                old(self).rank(),
                seq![id],
                old(self).rank()[id] + 1,
            ),
        decreases old(self).rank@[id],
    {
        let ghost r = self.rank@;
        let ghost ui0 = *self;
        proof {
            lemma_restructured_one(self@, r, id, r[id] + 1);
        }
        let flags = self.arena.state(id).flags;
        if !flags.has(Dirty::tree() | Dirty::sub_tree()) {
            return;
        }
        self.ensure_group(id);
        let ghost ui1 = *self;
        self.sync_visible(id);
        let ghost ui2 = *self;
        proof {
            self.lemma_kept_trans(&ui1, &ui0);
        }
        if flags.has(Dirty::tree()) {
            self.sync_children(id);
        }
        let ghost ui3 = *self;
        proof {
            if flags.tree {
                self.lemma_kept_trans(&ui2, &ui0);
            }
        }
        let kids = self.children(id);
        let ghost all = kids@;
        let mut i: usize = 0;
        assert(all.skip(0) =~= all);
        while i < kids.len()
            invariant
                ui3.kept(&ui0),
                self.kept(&ui0),
                ui0.nodes_suffice(),
                ui0.wf(),
                r == ui0.rank@,
                r == self.rank@,
                *old(self) == ui0,
                all == kids@,
                i <= all.len(),
                ui0@.nodes.dom().contains(id),
                all == ui0@.nodes[id].state.children,
                restructured(self@, r, all.skip(i as int), r[id]) == restructured(
                    ui3@,
                    r,
                    all,
                    r[id],
                ),
            decreases all.len() - i,
        {
            let ghost mid = *self;
            let c = kids[i];
            proof {
                ui0.tree_shape();
                lemma_child(ui0@.nodes, r, ui0.top@, id, i as int);
                assert(all.skip(i as int)[0] == c);
                assert(all.skip(i as int).drop_first() =~= all.skip(i + 1));
                lemma_restructured_bound(self@, r, c, r[c] + 1, r[id]);
                lemma_restructured_head(self@, r, all.skip(i as int), r[id]);
            }
            self.pass_tree(c);
            proof {
                self.lemma_kept_trans(&mid, &ui0);
            }
            i += 1;
        }
        let ghost ui4 = *self;
        proof {
            assert(all.skip(i as int) =~= Seq::<WidgetId>::empty());
        }
        self.clear_flags(id, Dirty::tree() | Dirty::sub_tree());
        proof {
            self.lemma_kept_trans(&ui4, &ui0);
            assert((Dirty { tree: true, sub_tree: true, ..Dirty::clean() }) == tree_flags());
        }
    }
}

/// What the tree pass does to one widget.
pub open spec fn restructured_at<W>(
    ui: UiView<W>,
    rank: Map<WidgetId, nat>,
    id: WidgetId,
    bound: nat,
) -> UiView<W> {
    let st = ui.nodes[id].state;
    if ui.nodes.dom().contains(id) && rank[id] < bound && restructures(st) {
        let a = disclosed(grouped(ui, id), id);
        let b = if st.flags.tree {
            arranged(a, id)
        } else {
            a
        };
        cleared(restructured(b, rank, st.children, rank[id]), id, tree_flags())
    } else {
        ui
    }
}

proof fn lemma_restructured_one<W>(
    ui: UiView<W>,
    rank: Map<WidgetId, nat>,
    id: WidgetId,
    bound: nat,
)
    ensures
        restructured(ui, rank, seq![id], bound) == restructured_at(ui, rank, id, bound),
{
    let ids = seq![id];
    assert(ids.drop_first() =~= Seq::<WidgetId>::empty());
    let next = restructured_at(ui, rank, id, bound);
    assert(restructured(next, rank, ids.drop_first(), bound) == next);
}

proof fn lemma_restructured_head<W>(
    ui: UiView<W>,
    rank: Map<WidgetId, nat>,
    ids: Seq<WidgetId>,
    bound: nat,
)
    requires
        ids.len() > 0,
    ensures
        restructured(ui, rank, ids, bound) == restructured(
            restructured_at(ui, rank, ids[0], bound),
            rank,
            ids.drop_first(),
            bound,
        ),
{
}

proof fn lemma_restructured_bound<W>(
    ui: UiView<W>,
    rank: Map<WidgetId, nat>,
    id: WidgetId,
    a: nat,
    b: nat,
)
    requires
        rank[id] < a,
        rank[id] < b,
    ensures
        restructured(ui, rank, seq![id], a) == restructured_at(ui, rank, id, b),
{
    lemma_restructured_one(ui, rank, id, a);
}

// ---------------------------------------------------------------------
// painting
// ---------------------------------------------------------------------

/// The widgets the paint pass goes into, in pre-order, from each of `ids`.
pub open spec fn entered<W>(
    m: Nodes<W>,
    rank: Map<WidgetId, nat>,
    ids: Seq<WidgetId>,
    bound: nat,
) -> Seq<WidgetId>
    decreases bound, ids.len(),
{
    if ids.len() == 0 {
        Seq::empty()
    } else {
        let id = ids[0];
        let rest = entered(m, rank, ids.drop_first(), bound);
        if m.dom().contains(id) && rank[id] < bound && paints(m[id].state) {
            seq![id] + entered(m, rank, m[id].state.children, rank[id]) + rest
        } else {
            rest
        }
    }
}

proof fn lemma_entered_concat<W>(
    m: Nodes<W>,
    rank: Map<WidgetId, nat>,
    a: Seq<WidgetId>,
    b: Seq<WidgetId>,
    bound: nat,
)
    ensures
        entered(m, rank, a + b, bound) == entered(m, rank, a, bound) + entered(m, rank, b, bound),
    decreases a.len(),
{
    if a.len() == 0 {
        assert(a + b =~= b);
        assert(entered(m, rank, a, bound) + entered(m, rank, b, bound) =~= entered(
            m,
            rank,
            b,
            bound,
        ));
    } else {
        assert((a + b).drop_first() =~= a.drop_first() + b);
        lemma_entered_concat(m, rank, a.drop_first(), b, bound);
        assert(entered(m, rank, a + b, bound) =~= entered(m, rank, a, bound) + entered(
            m,
            rank,
            b,
            bound,
        ));
    }
}

proof fn lemma_entered_one<W>(m: Nodes<W>, rank: Map<WidgetId, nat>, id: WidgetId, bound: nat)
    requires
        rank[id] < bound,
    ensures
        entered(m, rank, seq![id], bound) == (if m.dom().contains(id) && paints(m[id].state) {
            seq![id] + entered(m, rank, m[id].state.children, rank[id])
        } else {
            Seq::empty()
        }),
{
    let ids = seq![id];
    assert(ids.drop_first() =~= Seq::<WidgetId>::empty());
    assert(entered(m, rank, ids.drop_first(), bound) =~= Seq::<WidgetId>::empty());
    assert(entered(m, rank, ids, bound) =~= (if m.dom().contains(id) && paints(m[id].state) {
        seq![id] + entered(m, rank, m[id].state.children, rank[id])
    } else {
        Seq::empty()
    }));
}

/// The walk holds its roots and the children of whatever it holds, as far
/// as there is something to paint in them; and nothing that is not live.
proof fn lemma_entered_closed<W>(
    m: Nodes<W>,
    rank: Map<WidgetId, nat>,
    top: nat,
    ids: Seq<WidgetId>,
    bound: nat,
)
    requires
        linked(m),
        ranked(m, rank, top),
        forall|i: int| 0 <= i < ids.len() ==> m.dom().contains(#[trigger] ids[i]) && rank[ids[i]] < bound,
    ensures
        forall|i: int|
            0 <= i < ids.len() && paints(m[#[trigger] ids[i]].state) ==> entered(m, rank, ids, bound).contains(
                ids[i],
            ),
        forall|x: WidgetId, i: int|
            entered(m, rank, ids, bound).contains(x) && 0 <= i < m[x].state.children.len() && paints(
                m[m[x].state.children[i]].state,
            ) ==> entered(m, rank, ids, bound).contains(#[trigger] m[x].state.children[i]),
        forall|x: WidgetId| #[trigger] entered(m, rank, ids, bound).contains(x) ==> m.dom().contains(x),
    decreases bound, ids.len(),
{
    if ids.len() > 0 {
        let id = ids[0];
        let tail = ids.drop_first();
        let kids = m[id].state.children;
        let all = entered(m, rank, ids, bound);
        let head = entered(m, rank, kids, rank[id]);
        let rest = entered(m, rank, tail, bound);
        assert(m.dom().contains(ids[0]));
        assert forall|i: int| 0 <= i < tail.len() implies m.dom().contains(#[trigger] tail[i])
            && rank[tail[i]] < bound by {
            assert(tail[i] == ids[i + 1]);
        }
        assert forall|i: int| 0 <= i < kids.len() implies m.dom().contains(#[trigger] kids[i])
            && rank[kids[i]] < rank[id] by {
            lemma_child(m, rank, top, id, i);
        }
        lemma_entered_closed(m, rank, top, tail, bound);
        lemma_entered_closed(m, rank, top, kids, rank[id]);
        if paints(m[id].state) {
            assert(all =~= seq![id] + head + rest);
            assert forall|x: WidgetId| #[trigger] all.contains(x) <==> x == id || head.contains(x)
                || rest.contains(x) by {
                if all.contains(x) {
                    let k = choose|k: int| 0 <= k < all.len() && all[k] == x;
                    if k == 0 {
                    } else if k <= head.len() {
                        assert(head[k - 1] == x);
                    } else {
                        assert(rest[k - 1 - head.len()] == x);
                    }
                }
                if x == id {
                    assert(all[0] == x);
                }
                if head.contains(x) {
                    let k = choose|k: int| 0 <= k < head.len() && head[k] == x;
                    assert(all[k + 1] == x);
                }
                if rest.contains(x) {
                    let k = choose|k: int| 0 <= k < rest.len() && rest[k] == x;
                    assert(all[k + 1 + head.len()] == x);
                }
            }
        } else {
            assert(all == rest);
        }
        assert forall|i: int| 0 <= i < ids.len() && paints(m[#[trigger] ids[i]].state) implies all.contains(
            ids[i],
        ) by {
            if i > 0 {
                assert(ids[i] == tail[i - 1]);
            }
        }
        assert forall|x: WidgetId, i: int|
            all.contains(x) && 0 <= i < m[x].state.children.len() && paints(
                m[m[x].state.children[i]].state,
            ) implies all.contains(#[trigger] m[x].state.children[i]) by {
            if x == id && paints(m[id].state) {
                assert(head.contains(kids[i]));
            }
        }
    }
}

/// Where the trail holds, the walk from a widget meets everything under it
/// that has something to paint.
proof fn lemma_entered_all<W>(
    m: Nodes<W>,
    rank: Map<WidgetId, nat>,
    top: nat,
    from: WidgetId,
    x: WidgetId,
)
    requires
        linked(m),
        ranked(m, rank, top),
        trail(m),
        m.dom().contains(from),
        m.dom().contains(x),
        crate::tree::under(m, rank, top, x, from),
        paints(m[x].state),
    ensures
        entered(m, rank, seq![from], rank[from] + 1).contains(x),
    decreases top - rank[x],
{
    let ids = seq![from];
    lemma_entered_closed(m, rank, top, ids, rank[from] + 1);
    if x == from {
        assert(ids[0] == x);
    } else {
        crate::tree::lemma_ancestors(m, rank, top, x);
        let up = crate::tree::ancestors(m, rank, top, x);
        let p = m[x].state.parent->0;
        let tail = crate::tree::ancestors(m, rank, top, p);
        assert(up[0] == p);
        assert(rank[p] <= top) by {
            reveal(ranked);
        }
        assert(crate::tree::under(m, rank, top, p, from)) by {
            let k = choose|k: int| 0 <= k < up.len() && up[k] == from;
            if k > 0 {
                assert(tail[k - 1] == from);
            }
        }
        assert(paints(m[p].state)) by {
            reveal(trail);
        }
        lemma_entered_all(m, rank, top, from, p);
        assert(m[p].state.children.contains(x)) by {
            reveal(linked);
            let _ = m[p];
        }
        let k = choose|k: int| 0 <= k < m[p].state.children.len() && m[p].state.children[k] == x;
        assert(entered(m, rank, ids, rank[from] + 1).contains(m[p].state.children[k]));
    }
}

/// The map with the paint flags of `done` cleared.
pub open spec fn painted<W>(m: Nodes<W>, done: Seq<WidgetId>) -> Nodes<W> {
    Map::new(
        |x: WidgetId| m.dom().contains(x),
        |x: WidgetId|
            if done.contains(x) {
                Entry {
                    widget: m[x].widget,
                    state: WidgetView {
                        flags: m[x].state.flags.without(paint_flags()),
                        ..m[x].state
                    },
                }
            } else {
                m[x]
            },
    )
}

impl<W> Ui<W> {
    fn collect_entered(&self, id: WidgetId, out: &mut Vec<WidgetId>)
        requires
            self.wf(),
            self@.nodes.dom().contains(id),
        ensures
            final(out)@ == old(out)@ + entered(
                self@.nodes,
                self.rank(),
                seq![id],
                self.rank()[id] + 1,
            ),
        decreases self.rank@[id],
    {
        let ghost m = self@.nodes;
        let ghost r = self.rank@;
        proof {
            lemma_entered_one(m, r, id, r[id] + 1);
        }
        let st = self.arena.state(id);
        if !st.flags.has(Dirty::paint() | Dirty::sub_paint()) {
            assert(out@ =~= old(out)@ + Seq::<WidgetId>::empty());
            return;
        }
        out.push(id);
        let kids = &st.children;
        let mut i: usize = 0;
        proof {
            assert(entered(m, r, kids@.take(0), r[id]) =~= Seq::<WidgetId>::empty());
            assert(out@ =~= old(out)@ + (seq![id] + entered(m, r, kids@.take(0), r[id])));
        }
        while i < kids.len()
            invariant
                self.wf(),
                m == self@.nodes,
                r == self.rank@,
                m.dom().contains(id),
                kids@ == m[id].state.children,
                i <= kids.len(),
                out@ == old(out)@ + (seq![id] + entered(m, r, kids@.take(i as int), r[id])),
            decreases kids.len() - i,
        {
            let ghost c = kids@[i as int];
            proof {
                self.tree_shape();
                lemma_child(m, r, self.top@, id, i as int);
                assert(kids@.take(i + 1) =~= kids@.take(i as int) + seq![c]);
                lemma_entered_concat(m, r, kids@.take(i as int), seq![c], r[id]);
                lemma_entered_one(m, r, c, r[id]);
                lemma_entered_one(m, r, c, r[c] + 1);
            }
            self.collect_entered(kids[i], out);
            i += 1;
            assert(out@ =~= old(out)@ + (seq![id] + entered(m, r, kids@.take(i as int), r[id])));
        }
        assert(kids@.take(i as int) =~= kids@);
    }

    /// The widgets the paint pass goes into, in contracts.
    pub open spec fn dirty_walk(&self) -> Seq<WidgetId> {
        match self@.root {
            Some(root) => if self@.nodes.dom().contains(root) {
                entered(self@.nodes, self.rank(), seq![root], self.rank()[root] + 1)
            } else {
                Seq::empty()
            },
            None => Seq::empty(),
        }
    }

    /// The widgets the paint pass goes into, in pre-order. A subtree with
    /// nothing to paint in it is not walked.
    fn walk_dirty(&self) -> (out: Vec<WidgetId>)
        requires
            self.wf(),
        ensures
            out@ == self.dirty_walk(),
    {
        let mut out: Vec<WidgetId> = Vec::new();
        if let Some(root) = self.root {
            if self.arena.is_live(root) {
                self.collect_entered(root, &mut out);
            }
        }
        assert(out@ =~= self.dirty_walk());
        out
    }

    /// The widgets that have to paint again, in the order they paint.
    pub fn paint_order(&self) -> (out: Vec<WidgetId>)
        requires
            self.wf(),
        ensures
            out@ == self.dirty_walk().filter(
                |x: WidgetId| self@.nodes[x].state.flags.paint,
            ),
    {
        let walk = self.walk_dirty();
        let ghost keep = |x: WidgetId| self@.nodes[x].state.flags.paint;
        let mut out: Vec<WidgetId> = Vec::new();
        let mut i: usize = 0;
        proof {
            reveal(Seq::filter);
            if let Some(root) = self.root {
                if self@.nodes.dom().contains(root) {
                    self.tree_shape();
                    lemma_entered_closed(
                        self@.nodes,
                        self.rank@,
                        self.top@,
                        seq![root],
                        self.rank@[root] + 1,
                    );
                }
            }
            assert(walk@.take(0).filter(keep) =~= Seq::<WidgetId>::empty());
            assert forall|k: int| 0 <= k < walk@.len() implies self@.nodes.dom().contains(
                #[trigger] walk@[k],
            ) by {
                assert(walk@.contains(walk@[k]));
            }
        }
        while i < walk.len()
            invariant
                i <= walk.len(),
                self.stored(),
                keep == (|x: WidgetId| self@.nodes[x].state.flags.paint),
                forall|k: int|
                    0 <= k < walk@.len() ==> self@.nodes.dom().contains(#[trigger] walk@[k]),
                out@ == walk@.take(i as int).filter(keep),
            decreases walk.len() - i,
        {
            proof {
                reveal(Seq::filter);
                assert(walk@.take(i + 1).drop_last() =~= walk@.take(i as int));
                assert(self@.nodes.dom().contains(walk@[i as int]));
            }
            let x = walk[i];
            if self.arena.state(x).flags.paint {
                out.push(x);
            }
            i += 1;
        }
        assert(walk@.take(i as int) =~= walk@);
        out
    }

    /// Where a widget paints: into its own group, in front of the group of
    /// its children. A widget without a group does not paint yet.
    pub fn paint_target(&self, id: WidgetId) -> (r: Option<(NodeId, NodeId)>)
        requires
            self.wf(),
        ensures
            r == (if self@.nodes.dom().contains(id) && self@.nodes[id].state.node is Some {
                Some(
                    (
                        self@.nodes[id].state.node->0,
                        match self@.nodes[id].state.content {
                            Some(content) => content,
                            None => NodeId::nothing(),
                        },
                    ),
                )
            } else {
                None
            }),
    {
        if !self.arena.is_live(id) {
            return None;
        }
        let st = self.arena.state(id);
        match st.node {
            Some(node) => Some(
                (
                    node,
                    match st.content {
                        Some(content) => content,
                        None => NodeId::none(),
                    },
                ),
            ),
            None => None,
        }
    }

    /// The paint pass is over: nothing that it went into is waiting any more.
    pub fn paint_done(&mut self)
        requires
            old(self).wf(),
        ensures
            final(self).wf(),
            final(self).rank() == old(self).rank(),
            final(self).top() == old(self).top(),
            final(self)@ == (UiView {
                nodes: painted(old(self)@.nodes, old(self).dirty_walk()),
                ..old(self)@
            }),
            final(self).space_left() == old(self).space_left(),
            final(self).still_retired(old(self)),
    {
        let walk = self.walk_dirty();
        let ghost m = self@.nodes;
        let ghost ui0 = *self;
        let mut i: usize = 0;
        proof {
            assert(painted(m, walk@.take(0)) =~= m);
            if let Some(root) = self.root {
                if self@.nodes.dom().contains(root) {
                    self.tree_shape();
                    lemma_entered_closed(m, self.rank@, self.top@, seq![root], self.rank@[root] + 1);
                }
            }
            assert forall|k: int| 0 <= k < walk@.len() implies m.dom().contains(#[trigger] walk@[k]) by {
                assert(walk@.contains(walk@[k]));
            }
        }
        while i < walk.len()
            invariant
                i <= walk.len(),
                ui0.wf(),
                m == ui0@.nodes,
                *old(self) == ui0,
                i == 0 ==> *self == ui0,
                i > 0 ==> self.kept(&ui0),
                self.wf(),
                self.rank@ == ui0.rank@,
                self.top@ == ui0.top@,
                self.space_left() == ui0.space_left(),
                self.still_retired(&ui0),
                forall|k: int| 0 <= k < walk@.len() ==> m.dom().contains(#[trigger] walk@[k]),
                self@ == (UiView { nodes: painted(m, walk@.take(i as int)), ..ui0@ }),
            decreases walk.len() - i,
        {
            let ghost mid = *self;
            let x = walk[i];
            assert(m.dom().contains(walk@[i as int]));
            self.clear_flags(x, Dirty::paint() | Dirty::sub_paint());
            proof {
                if i > 0 {
                    self.lemma_kept_trans(&mid, &ui0);
                }
                assert((Dirty { paint: true, sub_paint: true, ..Dirty::clean() }) == paint_flags());
                lemma_painted_step(m, walk@, i as int);
                assert(self@.ops =~= ui0@.ops);
            }
            i += 1;
        }
        assert(walk@.take(i as int) =~= walk@);
    }
}

proof fn lemma_painted_step<W>(m: Nodes<W>, walk: Seq<WidgetId>, i: int)
    requires
        0 <= i < walk.len(),
        m.dom().contains(walk[i]),
    ensures
        painted(m, walk.take(i + 1)) == with_state(
            painted(m, walk.take(i)),
            walk[i],
            WidgetView {
                flags: painted(m, walk.take(i))[walk[i]].state.flags.without(paint_flags()),
                ..painted(m, walk.take(i))[walk[i]].state
            },
        ),
{
    let less = walk.take(i);
    let more = walk.take(i + 1);
    let x = walk[i];
    let a = painted(m, more);
    let b = with_state(
        painted(m, less),
        x,
        WidgetView {
            flags: painted(m, less)[x].state.flags.without(paint_flags()),
            ..painted(m, less)[x].state
        },
    );
    assert forall|y: WidgetId| #[trigger] more.contains(y) <==> less.contains(y) || y == x by {
        if more.contains(y) {
            let j = choose|j: int| 0 <= j < more.len() && more[j] == y;
            if j < i {
                assert(less[j] == y);
            }
        }
        if less.contains(y) {
            let j = choose|j: int| 0 <= j < less.len() && less[j] == y;
            assert(more[j] == y);
        }
        if y == x {
            assert(more[i] == y);
        }
    }
    assert(a.dom() =~= b.dom());
    assert forall|y: WidgetId| a.dom().contains(y) implies #[trigger] a[y] == b[y] by {
        if y == x {
            assert(more.contains(y));
            if less.contains(y) {
                let f = m[y].state.flags;
                assert(f.without(paint_flags()).without(paint_flags()) == f.without(paint_flags()));
            }
        } else {
            assert(more.contains(y) == less.contains(y));
        }
    }
    assert(a =~= b);
}

/// Once the paint pass is over, nothing under the root is waiting to be
/// painted.
pub proof fn paint_settles<W>(ui: &Ui<W>, root: WidgetId, x: WidgetId)
    requires
        ui.wf(),
        trail(ui@.nodes),
        ui@.root == Some(root),
        ui@.nodes.dom().contains(root),
        ui@.nodes.dom().contains(x),
        crate::tree::under(ui@.nodes, ui.rank(), ui.top(), x, root),
    ensures
        !paints(painted(ui@.nodes, ui.dirty_walk())[x].state),
{
    ui.tree_shape();
    if paints(ui@.nodes[x].state) {
        lemma_entered_all(ui@.nodes, ui.rank(), ui.top(), root, x);
    }
}

// ---------------------------------------------------------------------
// what the tree pass leaves behind
// ---------------------------------------------------------------------

/// The same widgets in the same places with the same flags.
spec fn same_flags<W>(a: Nodes<W>, b: Nodes<W>) -> bool {
    &&& same_shape(a, b)
    &&& forall|x: WidgetId| #[trigger] a.dom().contains(x) ==> a[x].state.flags == b[x].state.flags
}

proof fn lemma_lined_up_flags<W>(
    ui: UiView<W>,
    content: NodeId,
    kids: Seq<WidgetId>,
    before: NodeId,
)
    requires
        forall|i: int| 0 <= i < kids.len() ==> ui.nodes.dom().contains(#[trigger] kids[i]),
    ensures
        same_flags(ui.nodes, lined_up(ui, content, kids, before).nodes),
    decreases kids.len(),
{
    if kids.len() > 0 {
        let c = kids.last();
        let n = put(ui, content, c, before);
        let st = ui.nodes[c].state;
        assert(ui.nodes.dom().contains(kids[kids.len() - 1]));
        assert(same_flags(ui.nodes, n.nodes)) by {
            assert(ui.nodes.dom() =~= n.nodes.dom());
        }
        let rest = kids.drop_last();
        assert forall|i: int| 0 <= i < rest.len() implies n.nodes.dom().contains(#[trigger] rest[i]) by {
            assert(rest[i] == kids[i]);
        }
        lemma_lined_up_flags(n, content, rest, n.nodes[c].state.node->0);
    }
}

/// Preparing one widget changes no flags.
proof fn lemma_prepared_flags<W>(
    ui: UiView<W>,
    rank: Map<WidgetId, nat>,
    top: nat,
    id: WidgetId,
)
    requires
        linked(ui.nodes),
        ranked(ui.nodes, rank, top),
        ui.nodes.dom().contains(id),
    ensures
        same_flags(ui.nodes, disclosed(grouped(ui, id), id).nodes),
        same_flags(ui.nodes, arranged(disclosed(grouped(ui, id), id), id).nodes),
{
    let g = grouped(ui, id);
    assert(same_flags(ui.nodes, g.nodes)) by {
        assert(ui.nodes.dom() =~= g.nodes.dom());
    }
    let a = disclosed(g, id);
    assert(same_flags(ui.nodes, a.nodes)) by {
        assert(ui.nodes.dom() =~= a.nodes.dom());
    }
    let o = opened(a, id);
    assert(same_flags(ui.nodes, o.nodes)) by {
        assert(ui.nodes.dom() =~= o.nodes.dom());
    }
    let kids = ui.nodes[id].state.children;
    assert forall|i: int| 0 <= i < kids.len() implies o.nodes.dom().contains(#[trigger] kids[i]) by {
        lemma_child(ui.nodes, rank, top, id, i);
    }
    if o.nodes[id].state.content is Some {
        lemma_lined_up_flags(o, o.nodes[id].state.content->0, kids, NodeId::nothing());
    }
}

/// Within a walk, what a pass has to do in a widget it has to do in the
/// parent as well, up to the roots of the walk.
spec fn led<W>(m: Nodes<W>, rank: Map<WidgetId, nat>, ids: Seq<WidgetId>, bound: nat) -> bool {
    forall|x: WidgetId| #[trigger]
        forest(m, rank, ids, bound).contains(x) && restructures(m[x].state) && !ids.contains(x) ==> (
        m[x].state.parent matches Some(p) && restructures(m[p].state))
}

proof fn lemma_unlit<W>(
    m: Nodes<W>,
    rank: Map<WidgetId, nat>,
    top: nat,
    id: WidgetId,
    x: WidgetId,
)
    requires
        linked(m),
        ranked(m, rank, top),
        m.dom().contains(id),
        led(m, rank, seq![id], rank[id] + 1),
        !restructures(m[id].state),
        subtree(m, rank, id).contains(x),
    ensures
        !restructures(m[x].state),
    decreases top - rank[x],
{
    let ids = seq![id];
    lemma_forest_closed(m, rank, top, ids, rank[id] + 1);
    if x != id && restructures(m[x].state) {
        assert(!ids.contains(x));
        let p = m[x].state.parent->0;
        assert(subtree(m, rank, id).contains(p));
        let all = subtree(m, rank, id);
        lemma_forest_live(m, rank, ids, rank[id] + 1);
        let k = choose|k: int| 0 <= k < all.len() && all[k] == p;
        assert(m.dom().contains(all[k]));
        let j = choose|j: int| 0 <= j < all.len() && all[j] == x;
        assert(m.dom().contains(all[j]));
        assert(rank[x] < rank[p] <= top) by {
            reveal(ranked);
        }
        lemma_unlit(m, rank, top, id, p);
    }
}

proof fn lemma_settles<W>(
    ui: UiView<W>,
    rank: Map<WidgetId, nat>,
    top: nat,
    ids: Seq<WidgetId>,
    bound: nat,
)
    requires
        linked(ui.nodes),
        ranked(ui.nodes, rank, top),
        forall|i: int|
            0 <= i < ids.len() ==> ui.nodes.dom().contains(#[trigger] ids[i]) && rank[ids[i]] < bound,
        forall|i: int, j: int|
            0 <= i < ids.len() && 0 <= j < ids.len() ==> ui.nodes[#[trigger] ids[i]].state.parent
                == ui.nodes[#[trigger] ids[j]].state.parent,
        ids.no_duplicates(),
        led(ui.nodes, rank, ids, bound),
    ensures
        same_shape(ui.nodes, restructured(ui, rank, ids, bound).nodes),
        forall|x: WidgetId| #[trigger]
            forest(ui.nodes, rank, ids, bound).contains(x) ==> !restructures(
                restructured(ui, rank, ids, bound).nodes[x].state,
            ),
        forall|x: WidgetId| #[trigger]
            ui.nodes.dom().contains(x) && !forest(ui.nodes, rank, ids, bound).contains(x)
                ==> restructured(ui, rank, ids, bound).nodes[x].state.flags
                == ui.nodes[x].state.flags,
    decreases bound, ids.len(),
{
    if ids.len() > 0 {
        let m = ui.nodes;
        let id = ids[0];
        let tail = ids.drop_first();
        let st = m[id].state;
        let kids = st.children;
        let all = forest(m, rank, ids, bound);
        let own = subtree(m, rank, id);
        let rest = forest(m, rank, tail, bound);
        assert(m.dom().contains(ids[0]));
        assert(ids =~= seq![id] + tail);
        lemma_forest_concat(m, rank, seq![id], tail, bound);
        lemma_forest_bound(m, rank, seq![id], rank[id] + 1, bound);
        assert(all =~= own + rest);
        lemma_subtree_distinct(m, rank, top, ids, bound);
        assert forall|x: WidgetId| #[trigger] all.contains(x) <==> own.contains(x) || rest.contains(x) by {
            if own.contains(x) {
                let k = choose|k: int| 0 <= k < own.len() && own[k] == x;
                assert(all[k] == x);
            }
            if rest.contains(x) {
                let k = choose|k: int| 0 <= k < rest.len() && rest[k] == x;
                assert(all[k + own.len()] == x);
            }
        }
        assert forall|x: WidgetId| #[trigger] rest.contains(x) implies !own.contains(x) by {
            if own.contains(x) {
                let j = choose|j: int| 0 <= j < own.len() && own[j] == x;
                let k = choose|k: int| 0 <= k < rest.len() && rest[k] == x;
                assert(all[j] == all[k + own.len()]);
            }
        }
        lemma_subtree(m, rank, top, id);
        let under_id = forest(m, rank, kids, rank[id]);
        assert forall|x: WidgetId| #[trigger] own.contains(x) <==> x == id || under_id.contains(x) by {
            if own.contains(x) {
                let k = choose|k: int| 0 <= k < own.len() && own[k] == x;
                if k > 0 {
                    assert(under_id[k - 1] == x);
                }
            }
            if under_id.contains(x) {
                let k = choose|k: int| 0 <= k < under_id.len() && under_id[k] == x;
                assert(own[k + 1] == x);
            }
            if x == id {
                assert(own[0] == x);
            }
        }
        let next = restructured_at(ui, rank, id, bound);
        let n = next.nodes;
        if restructures(st) {
            let a = disclosed(grouped(ui, id), id);
            let b = if st.flags.tree {
                arranged(a, id)
            } else {
                a
            };
            lemma_prepared_flags(ui, rank, top, id);
            assert(same_flags(m, b.nodes));
            lemma_same_shape(m, b.nodes, rank, top);
            lemma_forest_same(m, b.nodes, rank, kids, rank[id]);
            assert forall|i: int| 0 <= i < kids.len() implies b.nodes.dom().contains(#[trigger] kids[i])
                && rank[kids[i]] < rank[id] && b.nodes[kids[i]].state.parent == Some(id) by {
                lemma_child(m, rank, top, id, i);
            }
            assert(kids.no_duplicates()) by {
                reveal(linked);
            }
            assert(led(b.nodes, rank, kids, rank[id])) by {
                lemma_forest_live(m, rank, kids, rank[id]);
                lemma_forest_closed(m, rank, top, kids, rank[id]);
                assert forall|x: WidgetId| #[trigger]
                    forest(b.nodes, rank, kids, rank[id]).contains(x) && restructures(
                        b.nodes[x].state,
                    ) && !kids.contains(x) implies (b.nodes[x].state.parent matches Some(p)
                    && restructures(b.nodes[p].state)) by {
                    assert(under_id.contains(x));
                    let k = choose|k: int| 0 <= k < under_id.len() && under_id[k] == x;
                    assert(m.dom().contains(under_id[k]) && rank[under_id[k]] < rank[id]);
                    assert(own.contains(x));
                    assert(all.contains(x));
                    let p = m[x].state.parent->0;
                    assert(under_id.contains(p));
                    let j = choose|j: int| 0 <= j < under_id.len() && under_id[j] == p;
                    assert(m.dom().contains(under_id[j]));
                    if ids.contains(x) {
                        let i = choose|i: int| 0 <= i < ids.len() && ids[i] == x;
                        assert(m[ids[0]].state.parent == m[ids[i]].state.parent);
                        assert(m[id].state.parent == Some(p));
                        assert(rank[p] < rank[id]) by {
                            assert(rank[under_id[j]] < rank[id]);
                        }
                        assert(rank[id] < rank[p]) by {
                            reveal(ranked);
                        }
                    }
                    assert(restructures(m[p].state));
                }
            }
            lemma_settles(b, rank, top, kids, rank[id]);
            let d = restructured(b, rank, kids, rank[id]);
            assert(next == cleared(d, id, tree_flags()));
            assert(same_shape(m, n)) by {
                assert(m.dom() =~= n.dom());
            }
            assert forall|x: WidgetId| #[trigger] own.contains(x) implies !restructures(n[x].state) by {
                if x != id {
                    assert(under_id.contains(x));
                    assert(forest(b.nodes, rank, kids, rank[id]).contains(x));
                }
            }
            assert forall|x: WidgetId| #[trigger] m.dom().contains(x) && !own.contains(x) implies n[x].state.flags
                == m[x].state.flags by {
                assert(!under_id.contains(x));
                assert(!forest(b.nodes, rank, kids, rank[id]).contains(x));
                assert(b.nodes.dom().contains(x));
                assert(d.nodes[x].state.flags == b.nodes[x].state.flags);
            }
        } else {
            assert(next == ui);
            assert forall|x: WidgetId| #[trigger] own.contains(x) implies !restructures(n[x].state) by {
                assert(led(m, rank, seq![id], rank[id] + 1)) by {
                    assert forall|y: WidgetId| #[trigger]
                        forest(m, rank, seq![id], rank[id] + 1).contains(y) && restructures(
                            m[y].state,
                        ) && !seq![id].contains(y) implies (m[y].state.parent matches Some(p)
                        && restructures(m[p].state)) by {
                        assert(all.contains(y));
                        assert(y != id) by {
                            if y == id {
                                assert(seq![id][0] == y);
                            }
                        }
                        if ids.contains(y) {
                            let i = choose|i: int| 0 <= i < ids.len() && ids[i] == y;
                            assert(tail[i - 1] == y);
                            assert forall|q: int| 0 <= q < tail.len() implies m.dom().contains(
                                #[trigger] tail[q],
                            ) && rank[tail[q]] < bound by {
                                assert(tail[q] == ids[q + 1]);
                            }
                            lemma_forest_closed(m, rank, top, tail, bound);
                            assert(rest.contains(tail[i - 1]));
                        }
                    }
                }
                lemma_unlit(m, rank, top, id, x);
            }
        }
        lemma_same_shape(m, n, rank, top);
        lemma_forest_same(m, n, rank, tail, bound);
        assert forall|i: int| 0 <= i < tail.len() implies n.dom().contains(#[trigger] tail[i])
            && rank[tail[i]] < bound by {
            assert(tail[i] == ids[i + 1]);
        }
        assert forall|i: int, j: int|
            0 <= i < tail.len() && 0 <= j < tail.len() implies n[#[trigger] tail[i]].state.parent
            == n[#[trigger] tail[j]].state.parent by {
            assert(tail[i] == ids[i + 1] && tail[j] == ids[j + 1]);
            assert(m.dom().contains(ids[i + 1]) && m.dom().contains(ids[j + 1]));
        }
        lemma_forest_live(m, rank, tail, bound);
        assert(led(n, rank, tail, bound)) by {
            assert forall|i: int| 0 <= i < tail.len() implies m.dom().contains(#[trigger] tail[i])
                && rank[tail[i]] < bound by {
                assert(tail[i] == ids[i + 1]);
            }
            lemma_forest_closed(m, rank, top, tail, bound);
            assert forall|x: WidgetId| #[trigger]
                forest(n, rank, tail, bound).contains(x) && restructures(n[x].state)
                && !tail.contains(x) implies (n[x].state.parent matches Some(p) && restructures(
                n[p].state,
            )) by {
                assert(rest.contains(x));
                let k = choose|k: int| 0 <= k < rest.len() && rest[k] == x;
                assert(m.dom().contains(rest[k]));
                assert(all.contains(x));
                assert(x != id) by {
                    assert(own.contains(id));
                }
                if ids.contains(x) {
                    let i = choose|i: int| 0 <= i < ids.len() && ids[i] == x;
                    assert(tail[i - 1] == x);
                }
                let p = m[x].state.parent->0;
                assert(rest.contains(p));
                let j = choose|j: int| 0 <= j < rest.len() && rest[j] == p;
                assert(m.dom().contains(rest[j]));
            }
        }
        lemma_settles(next, rank, top, tail, bound);
        let z = restructured(next, rank, tail, bound).nodes;
        assert(restructured(ui, rank, ids, bound) == restructured(next, rank, tail, bound));
        assert forall|x: WidgetId| #[trigger] all.contains(x) implies !restructures(z[x].state) by {
            if rest.contains(x) {
                assert(forest(n, rank, tail, bound).contains(x));
            } else {
                assert(own.contains(x));
                assert(!forest(n, rank, tail, bound).contains(x));
                lemma_forest_live(m, rank, seq![id], rank[id] + 1);
                let k = choose|k: int| 0 <= k < own.len() && own[k] == x;
                assert(m.dom().contains(own[k]));
                assert(n.dom().contains(x));
            }
        }
        assert forall|x: WidgetId| #[trigger] m.dom().contains(x) && !all.contains(x) implies z[x].state.flags
            == m[x].state.flags by {
            assert(!own.contains(x) && !rest.contains(x));
            assert(n.dom().contains(x));
            assert(!forest(n, rank, tail, bound).contains(x));
        }
    }
}

/// The tree after the tree pass went through it from the root.
pub open spec fn tree_passed<W>(ui: UiView<W>, rank: Map<WidgetId, nat>) -> UiView<W> {
    match ui.root {
        Some(root) => if ui.nodes.dom().contains(root) {
            restructured(ui, rank, seq![root], rank[root] + 1)
        } else {
            ui
        },
        None => ui,
    }
}

/// The tree after the window's clip was sent: once, as soon as the root has
/// a group.
pub open spec fn clipped<W>(ui: UiView<W>) -> UiView<W> {
    match ui.root {
        Some(root) => if !ui.root_clipped && ui.nodes.dom().contains(root)
            && ui.nodes[root].state.node is Some {
            UiView {
                ops: ui.ops.push(Op::SetClip { node: ui.nodes[root].state.node->0, clip: true }),
                root_clipped: true,
                ..ui
            }
        } else {
            ui
        },
        None => ui,
    }
}

impl<W> Ui<W> {
    /// The tree pass: create, reparent and show the scene groups of
    /// structurally dirty subtrees, from the root down.
    pub fn flush_tree(&mut self)
        requires
            old(self).wf(),
            old(self).nodes_suffice(),
        ensures
            final(self).wf(),
            final(self).rank() == old(self).rank(),
            final(self).top() == old(self).top(),
            final(self)@ == tree_passed(old(self)@, old(self).rank()),
            final(self).nodes_suffice(),
            final(self).space_left() == old(self).space_left(),
            final(self).still_retired(old(self)),
    {
        if let Some(root) = self.root {
            if self.arena.is_live(root) {
                self.pass_tree(root);
            }
        }
    }

    /// The clip pass: a window's content is clipped to the window. One
    /// message on the root's own group, sent once and remembered.
    pub fn pass_clip(&mut self)
        requires
            old(self).wf(),
        ensures
            final(self).wf(),
            final(self).rank() == old(self).rank(),
            final(self).top() == old(self).top(),
            final(self)@ == clipped(old(self)@),
            final(self).space_left() == old(self).space_left(),
            final(self).still_retired(old(self)),
    {
        if self.root_clipped {
            return;
        }
        if let Some(root) = self.root {
            if self.arena.is_live(root) {
                if let Some(node) = self.arena.state(root).node {
                    self.ops.push(Op::SetClip { node, clip: true });
                    self.root_clipped = true;
                }
            }
        }
    }

    /// Take the scene changes queued so far, oldest first. Nothing queued
    /// means nothing to commit.
    pub fn take_ops(&mut self) -> (out: Vec<Op>)
        requires
            old(self).wf(),
        ensures
            final(self).wf(),
            final(self).rank() == old(self).rank(),
            final(self).top() == old(self).top(),
            out@ == old(self)@.ops,
            final(self)@ == (UiView { ops: Seq::empty(), ..old(self)@ }),
            final(self).space_left() == old(self).space_left(),
            final(self).still_retired(old(self)),
    {
        let mut out: Vec<Op> = Vec::new();
        std::mem::swap(&mut out, &mut self.ops);
        out
    }

    /// Clip a widget's children to its own box, or stop. The content group
    /// is told if there is one; else it is told when it appears.
    pub fn set_content_clip(&mut self, id: WidgetId, clip: bool)
        requires
            old(self).wf(),
        ensures
            final(self).wf(),
            final(self).rank() == old(self).rank(),
            final(self).top() == old(self).top(),
            ({
                let m = old(self)@.nodes;
                let st = m[id].state;
                final(self)@ == if !m.dom().contains(id) || st.content_clip == clip {
                    old(self)@
                } else {
                    UiView {
                        nodes: with_state(m, id, WidgetView { content_clip: clip, ..st }),
                        ops: match st.content {
                            Some(node) => old(self)@.ops.push(Op::SetClip { node, clip }),
                            None => old(self)@.ops,
                        },
                        ..old(self)@
                    }
                }
            }),
            final(self).space_left() == old(self).space_left(),
            final(self).still_retired(old(self)),
    {
        if !self.arena.is_live(id) || self.arena.state(id).content_clip == clip {
            return;
        }
        let ghost st = WidgetView { content_clip: clip, ..self@.nodes[id].state };
        let content = self.arena.state(id).content;
        {
            let s = self.arena.state_mut(id);
            s.content_clip = clip;
        }
        proof {
            assert(self.still_retired(old(self)));
            self.lemma_changed(old(self), id, st);
        }
        if let Some(node) = content {
            self.ops.push(Op::SetClip { node, clip });
        }
    }
}

/// Once the tree pass is over, nothing under the root is waiting for it.
pub proof fn tree_pass_settles<W>(ui: &Ui<W>, root: WidgetId, x: WidgetId)
    requires
        ui.wf(),
        trail(ui@.nodes),
        ui@.root == Some(root),
        ui@.nodes.dom().contains(root),
        ui.subtree(root).contains(x),
    ensures
        !restructures(tree_passed(ui@, ui.rank()).nodes[x].state),
{
    ui.tree_shape();
    let m = ui@.nodes;
    let ids = seq![root];
    let bound = ui.rank()[root] + 1;
    lemma_forest_closed(m, ui.rank(), ui.top(), ids, bound);
    lemma_forest_live(m, ui.rank(), ids, bound);
    assert(led(m, ui.rank(), ids, bound)) by {
        reveal(trail);
        assert forall|y: WidgetId| #[trigger]
            forest(m, ui.rank(), ids, bound).contains(y) && restructures(m[y].state)
            && !ids.contains(y) implies (m[y].state.parent matches Some(p) && restructures(
            m[p].state,
        )) by {
            let all = forest(m, ui.rank(), ids, bound);
            let k = choose|k: int| 0 <= k < all.len() && all[k] == y;
            assert(m.dom().contains(all[k]));
        }
    }
    lemma_settles(ui@, ui.rank(), ui.top(), ids, bound);
}

/// A settled tree costs nothing: with nothing to restructure in the root
/// and the clip sent, neither pass changes the tree or queues a message.
pub proof fn an_idle_tree_sends_nothing<W>(ui: UiView<W>, rank: Map<WidgetId, nat>, root: WidgetId)
    requires
        ui.root == Some(root),
        !restructures(ui.nodes[root].state),
        ui.root_clipped,
    ensures
        tree_passed(ui, rank) == ui,
        clipped(ui) == ui,
{
    lemma_restructured_one(ui, rank, root, rank[root] + 1);
}

} // verus!
