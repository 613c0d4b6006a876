//! What the passes over the tree send to the server, and when they send
//! nothing.

use vstd::prelude::*;

use crate::arena::{NodeId, WidgetId, WidgetView};
use crate::dirty::Dirty;
use crate::tree::{lemma_same_shape, linked, paints, ranked, restructures, same_shape, Nodes};
use crate::ui::arrange::{lays_out, placed_state, placing, rested};
use crate::ui::backdrop::{painting, repainted, Backdrop, Painting};
use crate::ui::passes::{
    arranged, cleared, clipped, disclosed, entered, grouped, lined_up, opened, painted, put,
    restructured, tree_flags, tree_passed,
};
use crate::ui::{lemma_child, Op, Ui, UiView};

verus! {

// ---------------------------------------------------------------------
// flags
// ---------------------------------------------------------------------

/// Flags are sets: what was put in is there, what was taken out is not, and
/// what was neither is as it was. Flags that have none in common with others
/// lose nothing by them.
pub proof fn flags_are_sets(a: Dirty, b: Dirty, c: Dirty)
    ensures
        a.with(b) == b.with(a),
        a.with(b.with(c)) == a.with(b).with(c),
        a.with(a) == a,
        a.with(Dirty::clean()) == a,
        a.without(Dirty::clean()) == a,
        a.with(b).without(b) == a.without(b),
        a.without(b).with(b) == a.with(b),
        a.without(a) == Dirty::clean(),
        a.meets(b) <==> a.without(b) != a,
        a.meets(b) <==> b.meets(a),
        a.meets(b.with(c)) <==> a.meets(b) || a.meets(c),
        !a.without(b).meets(b),
        a.covers(b) <==> a.with(b) == a,
{
}

/// What an ancestor carries for the flags of a widget says what there is to
/// do below it, never in it; it carries as much for two sets of flags as for
/// both together, and nothing for what is below the widget already.
pub proof fn an_ancestor_knows_what_is_below(a: Dirty, b: Dirty)
    ensures
        a.with(b).trail() == a.trail().with(b.trail()),
        a.trail().trail() == Dirty::clean(),
        a.trail().sub_layout <==> a.layout,
        a.trail().sub_paint <==> a.paint,
        a.trail().sub_tree <==> a.tree,
{
}

// ---------------------------------------------------------------------
// groups
// ---------------------------------------------------------------------

/// Whether nothing but the state of one widget, the messages and the next
/// free number differ.
pub open spec fn only_at<W>(a: UiView<W>, b: UiView<W>, id: WidgetId) -> bool {
    &&& b == (UiView { nodes: b.nodes, ops: b.ops, next_node: b.next_node, ..a })
    &&& a.nodes.dom() == b.nodes.dom()
    &&& forall|x: WidgetId| x != id && #[trigger] a.nodes.dom().contains(x) ==> b.nodes[x] == a.nodes[x]
    &&& b.nodes[id].widget == a.nodes[id].widget
}

/// A widget gets one group, and nothing is sent for one that has its group.
/// The group goes where the parent keeps its children, or to the window where
/// there is no such place, and its number was not given to another.
pub proof fn a_widget_gets_one_group<W>(ui: UiView<W>, id: WidgetId)
    requires
        ui.nodes.dom().contains(id),
        0 <= ui.next_node <= u32::MAX,
    ensures
        grouped(ui, id).nodes[id].state.node is Some,
        grouped(grouped(ui, id), id) == grouped(ui, id),
        only_at(ui, grouped(ui, id), id),
        ui.nodes[id].state.node is Some ==> grouped(ui, id) == ui,
        ui.nodes[id].state.node is None ==> {
            let now = grouped(ui, id);
            let node = now.nodes[id].state.node->0;
            let op = now.ops.last();
            &&& node.0 == ui.next_node
            &&& now.next_node == ui.next_node + 1
            &&& now.ops.len() == ui.ops.len() + 1
            &&& now.ops.drop_last() == ui.ops
            &&& now.nodes[id].state == (WidgetView { node: Some(node), ..ui.nodes[id].state })
            &&& op is CreateGroup && op->CreateGroup_node == node
            &&& op->CreateGroup_before == NodeId::nothing()
            &&& forall|p: WidgetId|
                ui.nodes[id].state.parent == Some(p) && #[trigger] ui.nodes.dom().contains(p)
                    && ui.nodes[p].state.content is Some ==> op->CreateGroup_parent
                    == ui.nodes[p].state.content->0
            &&& ui.nodes[id].state.parent is None ==> op->CreateGroup_parent == NodeId(1)
        },
{
    let now = grouped(ui, id);
    assert(now.nodes.dom() =~= ui.nodes.dom());
    if ui.nodes[id].state.node is None {
        assert(now.ops.drop_last() =~= ui.ops);
    }
}

/// Whether the server takes a widget to be visible: as it was last told, and
/// as visible where it was told nothing.
pub open spec fn taken_visible(st: WidgetView) -> bool {
    st.sent_visible != Some(false)
}

/// Once a widget that has a group was disclosed, the server takes it to be
/// visible exactly when it is. One message does it, about that group, and
/// none is sent where the server is right already.
pub proof fn the_server_knows_what_is_visible<W>(ui: UiView<W>, id: WidgetId)
    requires
        ui.nodes.dom().contains(id),
        ui.nodes[id].state.node is Some,
    ensures
        taken_visible(disclosed(ui, id).nodes[id].state) == ui.nodes[id].state.visible,
        disclosed(ui, id).nodes[id].state.visible == ui.nodes[id].state.visible,
        only_at(ui, disclosed(ui, id), id),
        disclosed(disclosed(ui, id), id) == disclosed(ui, id),
        disclosed(ui, id).next_node == ui.next_node,
        taken_visible(ui.nodes[id].state) == ui.nodes[id].state.visible ==> disclosed(ui, id) == ui,
        taken_visible(ui.nodes[id].state) != ui.nodes[id].state.visible ==> disclosed(ui, id).ops
            == ui.ops.push(
            Op::SetVisible {
                node: ui.nodes[id].state.node->0,
                visible: ui.nodes[id].state.visible,
            },
        ),
{
    let now = disclosed(ui, id);
    assert(now.nodes.dom() =~= ui.nodes.dom());
    if taken_visible(ui.nodes[id].state) != ui.nodes[id].state.visible {
        assert(now.ops =~= ui.ops.push(
            Op::SetVisible {
                node: ui.nodes[id].state.node->0,
                visible: ui.nodes[id].state.visible,
            },
        ));
    }
}

/// A widget gets one place for its children, inside its own group. It is
/// clipped where the widget clips, and it is fitted to the widget.
pub proof fn a_widget_gets_one_place_for_children<W>(ui: UiView<W>, id: WidgetId)
    requires
        ui.nodes.dom().contains(id),
        ui.nodes[id].state.node is Some,
        0 <= ui.next_node <= u32::MAX,
    ensures
        opened(ui, id).nodes[id].state.content is Some,
        opened(opened(ui, id), id) == opened(ui, id),
        only_at(ui, opened(ui, id), id),
        ui.nodes[id].state.content is Some ==> opened(ui, id) == ui,
        ui.nodes[id].state.content is None ==> {
            let now = opened(ui, id);
            let node = now.nodes[id].state.content->0;
            let sent = now.ops.skip(ui.ops.len() as int);
            &&& node.0 == ui.next_node
            &&& now.next_node == ui.next_node + 1
            &&& now.ops.len() >= ui.ops.len() && now.ops.take(ui.ops.len() as int) == ui.ops
            &&& sent.len() > 0
            &&& sent[0] == (Op::CreateGroup {
                node,
                parent: ui.nodes[id].state.node->0,
                before: NodeId::nothing(),
            })
            &&& sent.contains(Op::SetClip { node, clip: true }) <==> ui.nodes[id].state.content_clip
            &&& sent.last() == (Op::Fit { widget: id, node })
            &&& sent.len() == (if ui.nodes[id].state.content_clip {
                3int
            } else {
                2
            })
        },
{
    let now = opened(ui, id);
    assert(now.nodes.dom() =~= ui.nodes.dom());
    if ui.nodes[id].state.content is None {
        let node = now.nodes[id].state.content->0;
        let sent = now.ops.skip(ui.ops.len() as int);
        let made = Op::CreateGroup {
            node,
            parent: ui.nodes[id].state.node->0,
            before: NodeId::nothing(),
        };
        let clip = Op::SetClip { node, clip: true };
        let fit = Op::Fit { widget: id, node };
        assert(now.ops.take(ui.ops.len() as int) =~= ui.ops);
        if ui.nodes[id].state.content_clip {
            assert(sent =~= seq![made, clip, fit]);
            assert(sent[1] == clip);
        } else {
            assert(sent =~= seq![made, fit]);
        }
    }
}

/// A child is put where it belongs by one message, and by none where it is
/// there already.
pub proof fn a_child_is_put_once<W>(ui: UiView<W>, content: NodeId, c: WidgetId, before: NodeId)
    requires
        ui.nodes.dom().contains(c),
        0 <= ui.next_node <= u32::MAX,
    ensures
        put(ui, content, c, before).nodes[c].state.attached == Some((content, before)),
        put(ui, content, c, before).nodes[c].state.node is Some,
        only_at(ui, put(ui, content, c, before), c),
        ui.nodes[c].state.node is Some ==> {
            let now = put(ui, content, c, before);
            &&& now.next_node == ui.next_node
            &&& now.nodes[c].state.node == ui.nodes[c].state.node
            &&& ui.nodes[c].state.attached == Some((content, before)) ==> now.ops == ui.ops
            &&& ui.nodes[c].state.attached != Some((content, before)) ==> now.ops == ui.ops.push(
                Op::Reparent { node: ui.nodes[c].state.node->0, parent: content, before },
            )
        },
        ui.nodes[c].state.node is None ==> {
            let now = put(ui, content, c, before);
            &&& now.next_node == ui.next_node + 1
            &&& (now.nodes[c].state.node->0).0 == ui.next_node
            &&& now.ops == ui.ops.push(
                Op::CreateGroup { node: now.nodes[c].state.node->0, parent: content, before },
            )
        },
{
    let now = put(ui, content, c, before);
    let was = ui.nodes[c].state;
    assert(now.nodes.dom() =~= ui.nodes.dom());
    assert(now.nodes[c].state.attached == Some((content, before)));
    match was.node {
        Some(node) => {
            if was.attached == Some((content, before)) {
                assert(ui.ops + Seq::<Op>::empty() =~= ui.ops);
            } else {
                let op = Op::Reparent { node, parent: content, before };
                assert(ui.ops + seq![op] =~= ui.ops.push(op));
            }
        },
        None => {
            let op = Op::CreateGroup { node: NodeId(ui.next_node as u32), parent: content, before };
            assert(ui.ops + seq![op] =~= ui.ops.push(op));
        },
    }
}

/// Putting a child where it was just put sends nothing.
pub proof fn putting_again_sends_nothing<W>(
    ui: UiView<W>,
    content: NodeId,
    c: WidgetId,
    before: NodeId,
)
    requires
        ui.nodes.dom().contains(c),
    ensures
        put(put(ui, content, c, before), content, c, before).ops == put(
            ui,
            content,
            c,
            before,
        ).ops,
{
    let now = put(ui, content, c, before);
    let st = now.nodes[c].state;
    assert(st.attached == Some((content, before)) && st.node is Some);
    let again = put(now, content, c, before);
    assert(again.ops == now.ops + Seq::<Op>::empty());
}

/// The root is clipped once, as soon as it has a group.
pub proof fn the_root_is_clipped_once<W>(ui: UiView<W>, root: WidgetId)
    requires
        ui.root == Some(root),
        ui.nodes.dom().contains(root),
    ensures
        clipped(clipped(ui)) == clipped(ui),
        clipped(ui).nodes == ui.nodes,
        !ui.root_clipped && ui.nodes[root].state.node is Some ==> clipped(ui).root_clipped && clipped(
            ui,
        ).ops == ui.ops.push(Op::SetClip { node: ui.nodes[root].state.node->0, clip: true }),
        ui.root_clipped || ui.nodes[root].state.node is None ==> clipped(ui) == ui,
{
}

// ---------------------------------------------------------------------
// painting
// ---------------------------------------------------------------------

/// The paint pass looks into no widget that is clean and has nothing dirty
/// below it, and it comes to a widget through its parent.
pub proof fn a_clean_branch_is_passed_by<W>(
    m: Nodes<W>,
    rank: Map<WidgetId, nat>,
    ids: Seq<WidgetId>,
    bound: nat,
    i: int,
)
    requires
        0 <= i < entered(m, rank, ids, bound).len(),
    ensures
        m.dom().contains(entered(m, rank, ids, bound)[i]),
        paints(m[entered(m, rank, ids, bound)[i]].state),
        ids.contains(entered(m, rank, ids, bound)[i]) || stands_under(
            m,
            entered(m, rank, ids, bound),
            i,
        ),
    decreases bound, ids.len(),
{
    let all = entered(m, rank, ids, bound);
    let id = ids[0];
    let tail = ids.drop_first();
    let rest = entered(m, rank, tail, bound);
    if m.dom().contains(id) && rank[id] < bound && paints(m[id].state) {
        let kids = m[id].state.children;
        let below = entered(m, rank, kids, rank[id]);
        assert(all == seq![id] + below + rest);
        if i == 0 {
            assert(ids[0] == all[0]);
        } else if i <= below.len() {
            a_clean_branch_is_passed_by(m, rank, kids, rank[id], i - 1);
            assert(all[i] == below[i - 1]);
            if kids.contains(below[i - 1]) {
                assert(all[0] == id);
                assert(stands_under(m, all, i));
            } else {
                let j = choose|j: int|
                    0 <= j < i - 1 && m[#[trigger] below[j]].state.children.contains(below[i - 1]);
                assert(all[j + 1] == below[j]);
                assert(stands_under(m, all, i));
            }
        } else {
            let k = i - 1 - below.len();
            a_clean_branch_is_passed_by(m, rank, tail, bound, k);
            assert(all[i] == rest[k]);
            if tail.contains(rest[k]) {
                let j = choose|j: int| 0 <= j < tail.len() && tail[j] == rest[k];
                assert(ids[j + 1] == rest[k]);
            } else {
                let j = choose|j: int|
                    0 <= j < k && m[#[trigger] rest[j]].state.children.contains(rest[k]);
                assert(all[j + 1 + below.len()] == rest[j]);
                assert(stands_under(m, all, i));
            }
        }
    } else {
        a_clean_branch_is_passed_by(m, rank, tail, bound, i);
        if tail.contains(rest[i]) {
            let j = choose|j: int| 0 <= j < tail.len() && tail[j] == rest[i];
            assert(ids[j + 1] == rest[i]);
        }
    }
}

/// Whether a widget of a walk is a child of one that comes before it there.
pub open spec fn stands_under<W>(m: Nodes<W>, all: Seq<WidgetId>, i: int) -> bool {
    exists|j: int| 0 <= j < i && m[#[trigger] all[j]].state.children.contains(all[i])
}

/// A paint that is done leaves nothing to paint in the widgets it came to,
/// and whatever else there is to do, there and elsewhere, as it was.
pub proof fn painting_leaves_the_rest_to_do<W>(m: Nodes<W>, done: Seq<WidgetId>, x: WidgetId)
    requires
        m.dom().contains(x),
    ensures
        painted(m, done).dom() == m.dom(),
        !done.contains(x) ==> painted(m, done)[x] == m[x],
        done.contains(x) ==> {
            let was = m[x].state;
            let now = painted(m, done)[x].state;
            &&& painted(m, done)[x].widget == m[x].widget
            &&& now == (WidgetView { flags: now.flags, ..was })
            &&& !now.flags.paint && !now.flags.sub_paint
            &&& now.flags.layout == was.flags.layout && now.flags.sub_layout == was.flags.sub_layout
            &&& now.flags.tree == was.flags.tree && now.flags.sub_tree == was.flags.sub_tree
        },
{
    assert(painted(m, done).dom() =~= m.dom());
}

// ---------------------------------------------------------------------
// laying out
// ---------------------------------------------------------------------

/// A widget that got a new size is laid out inside and painted, told where it
/// is, and the place of its children is fitted where it clips them. One that
/// kept its size is looked into only where there is something to lay out.
pub proof fn a_new_size_is_laid_out_inside(st: WidgetView, moved: bool)
    ensures
        placing(st, moved, true).inside,
        placing(st, moved, true).moved == st.node,
        placing(st, moved, true).fit == (if st.content_clip {
            st.content
        } else {
            None
        }),
        placed_state(st, true).flags.layout && placed_state(st, true).flags.paint,
        placed_state(st, true) == (WidgetView {
            flags: Dirty { layout: true, paint: true, ..st.flags },
            ..st
        }),
        placing(st, moved, false).inside <==> st.flags.layout || st.flags.sub_layout,
        placing(st, true, false).moved == st.node,
        placing(st, false, false).moved is None,
        placing(st, moved, false).fit is None,
        placed_state(st, false) == st,
{
}

/// A widget that was laid out has nothing left to lay out, and all that there
/// was to paint and to restructure.
pub proof fn laying_out_leaves_the_rest_to_do(st: WidgetView)
    ensures
        !lays_out(rested(st)),
        rested(st) == (WidgetView {
            flags: Dirty { layout: false, sub_layout: false, ..st.flags },
            ..st
        }),
        rested(rested(st)) == rested(st),
        rested(placed_state(st, true)).flags.paint,
{
}

// ---------------------------------------------------------------------
// the backdrop
// ---------------------------------------------------------------------

/// A backdrop is made once, behind everything; it is painted again where it
/// looks different or was spoiled; and where it is no longer wanted, it is
/// taken away, and that once.
pub proof fn a_backdrop_is_made_and_taken_away<W>(ui: UiView<W>, later: UiView<W>, same: bool)
    requires
        0 <= ui.next_node <= u32::MAX,
    ensures
        ({
            let none = Backdrop { wanted: true, node: None, sent: false };
            let made = painting(none, ui, same);
            let b = repainted(none, made);
            &&& made is Create
            &&& made->Create_node.0 == ui.next_node
            &&& forall|root: WidgetId|
                ui.root == Some(root) && #[trigger] ui.nodes.dom().contains(root)
                    && ui.nodes[root].state.node is Some ==> made->before
                    == ui.nodes[root].state.node->0
            &&& ui.root is None ==> made->before == NodeId::nothing()
            &&& painting(b, later, false) == Painting::Update(made->Create_node)
            &&& painting((Backdrop { sent: false, ..b }), later, same) == Painting::Update(
                made->Create_node,
            )
            &&& painting(b, later, true) is Nothing
            &&& repainted(b, painting(b, later, same)) == b
            &&& painting((Backdrop { wanted: false, ..b }), later, same) == Painting::Destroy(
                made->Create_node,
            )
            &&& repainted(
                (Backdrop { wanted: false, ..b }),
                Painting::Destroy(made->Create_node),
            ) == (Backdrop { wanted: false, node: None, sent: false })
            &&& painting((Backdrop { wanted: false, node: None, sent: false }), later, same) is Nothing
        }),
{
}

/// The widgets that a paint comes to below some, one run behind the other.
pub open spec fn paint_runs<W>(m: Nodes<W>, rank: Map<WidgetId, nat>, ids: Seq<WidgetId>) -> Seq<
    WidgetId,
>
    decreases ids.len(),
{
    if ids.len() == 0 {
        Seq::empty()
    } else {
        paint_run(m, rank, ids[0]) + paint_runs(m, rank, ids.drop_first())
    }
}

/// The widgets that a paint comes to at and below one.
pub open spec fn paint_run<W>(m: Nodes<W>, rank: Map<WidgetId, nat>, id: WidgetId) -> Seq<WidgetId> {
    entered(m, rank, seq![id], rank[id] + 1)
}

proof fn lemma_paint_runs<W>(m: Nodes<W>, rank: Map<WidgetId, nat>, ids: Seq<WidgetId>, bound: nat)
    requires
        forall|i: int|
            0 <= i < ids.len() ==> m.dom().contains(#[trigger] ids[i]) && rank[ids[i]] < bound,
    ensures
        entered(m, rank, ids, bound) == paint_runs(m, rank, ids),
    decreases ids.len(),
{
    if ids.len() > 0 {
        let rest = ids.drop_first();
        assert forall|i: int| 0 <= i < rest.len() implies m.dom().contains(#[trigger] rest[i])
            && rank[rest[i]] < bound by {
            assert(rest[i] == ids[i + 1]);
        }
        lemma_paint_runs(m, rank, rest, bound);
        let one = seq![ids[0]];
        assert(m.dom().contains(ids[0]) && rank[ids[0]] < bound);
        assert(one.drop_first() =~= Seq::empty());
        assert(entered(m, rank, one.drop_first(), rank[ids[0]] + 1) =~= Seq::empty());
        assert(entered(m, rank, ids, bound) =~= paint_run(m, rank, ids[0]) + paint_runs(
            m,
            rank,
            rest,
        ));
    }
}

/// A paint goes in the order of the tree: it comes to a widget before what is
/// in it, and to what is in it child by child. It does not come to a widget
/// where neither that nor anything below it is to be painted.
pub proof fn a_paint_goes_in_tree_order<W>(ui: &Ui<W>, id: WidgetId)
    requires
        ui.wf(),
        ui@.nodes.dom().contains(id),
    ensures
        ({
            let m = ui@.nodes;
            let rank = ui.rank();
            let st = m[id].state;
            &&& st.flags.paint || st.flags.sub_paint ==> paint_run(m, rank, id) == seq![id]
                + paint_runs(m, rank, st.children)
            &&& !st.flags.paint && !st.flags.sub_paint ==> paint_run(m, rank, id).len() == 0
            &&& ui@.root == Some(id) ==> ui.dirty_walk() == paint_run(m, rank, id)
        }),
{
    ui.tree_shape();
    let m = ui@.nodes;
    let rank = ui.rank();
    let kids = m[id].state.children;
    assert forall|i: int| 0 <= i < kids.len() implies m.dom().contains(#[trigger] kids[i])
        && rank[kids[i]] < rank[id] by {
        lemma_child(m, rank, ui.top(), id, i);
    }
    lemma_paint_runs(m, rank, kids, rank[id]);
    let one = seq![id];
    assert(one.drop_first() =~= Seq::empty());
    assert(entered(m, rank, one.drop_first(), rank[id] + 1) =~= Seq::empty());
    if paints(m[id].state) {
        assert(paint_run(m, rank, id) =~= seq![id] + paint_runs(m, rank, kids));
    }
}

// ---------------------------------------------------------------------
// the tree pass
// ---------------------------------------------------------------------

/// Whether every widget is still there, where it was, and what was on screen
/// of it is still.
pub open spec fn goes_forward<W>(a: UiView<W>, b: UiView<W>) -> bool {
    &&& a.nodes.dom() == b.nodes.dom()
    &&& forall|x: WidgetId| #[trigger]
        a.nodes.dom().contains(x) ==> {
            &&& b.nodes[x].state.children == a.nodes[x].state.children
            &&& b.nodes[x].state.parent == a.nodes[x].state.parent
            &&& b.nodes[x].state.visible == a.nodes[x].state.visible
            &&& a.nodes[x].state.node is Some ==> b.nodes[x].state.node == a.nodes[x].state.node
            &&& a.nodes[x].state.content is Some ==> b.nodes[x].state.content
                == a.nodes[x].state.content
        }
}

proof fn lemma_put_forward<W>(ui: UiView<W>, content: NodeId, c: WidgetId, before: NodeId)
    requires
        ui.nodes.dom().contains(c),
    ensures
        goes_forward(ui, put(ui, content, c, before)),
        put(ui, content, c, before).nodes[c].state.node is Some,
{
    assert(put(ui, content, c, before).nodes.dom() =~= ui.nodes.dom());
}

proof fn lemma_lined_up_forward<W>(
    ui: UiView<W>,
    content: NodeId,
    kids: Seq<WidgetId>,
    before: NodeId,
)
    requires
        forall|i: int| 0 <= i < kids.len() ==> ui.nodes.dom().contains(#[trigger] kids[i]),
    ensures
        goes_forward(ui, lined_up(ui, content, kids, before)),
        forall|i: int|
            0 <= i < kids.len() ==> lined_up(ui, content, kids, before).nodes[#[trigger] kids[i]].state.node is Some,
    decreases kids.len(),
{
    if kids.len() > 0 {
        let c = kids.last();
        assert(c == kids[kids.len() - 1]);
        let n = put(ui, content, c, before);
        lemma_put_forward(ui, content, c, before);
        let rest = kids.drop_last();
        assert forall|i: int| 0 <= i < rest.len() implies n.nodes.dom().contains(
            #[trigger] rest[i],
        ) by {
            assert(rest[i] == kids[i]);
        }
        lemma_lined_up_forward(n, content, rest, n.nodes[c].state.node->0);
        let all = lined_up(ui, content, kids, before);
        assert forall|i: int| 0 <= i < kids.len() implies all.nodes[#[trigger] kids[i]].state.node is Some by {
            if i < rest.len() {
                assert(rest[i] == kids[i]);
            } else {
                assert(n.nodes.dom().contains(c));
            }
        }
    }
}

proof fn lemma_arranged_forward<W>(ui: UiView<W>, id: WidgetId)
    requires
        ui.nodes.dom().contains(id),
        forall|i: int|
            0 <= i < ui.nodes[id].state.children.len() ==> ui.nodes.dom().contains(
                #[trigger] ui.nodes[id].state.children[i],
            ),
    ensures
        goes_forward(ui, arranged(ui, id)),
        ui.nodes[id].state.node is Some ==> forall|i: int|
            0 <= i < ui.nodes[id].state.children.len() ==> arranged(
                ui,
                id,
            ).nodes[#[trigger] ui.nodes[id].state.children[i]].state.node is Some,
{
    let kids = ui.nodes[id].state.children;
    let o = opened(ui, id);
    assert(o.nodes.dom() =~= ui.nodes.dom());
    assert(goes_forward(ui, o));
    if kids.len() > 0 && o.nodes[id].state.content is Some {
        lemma_lined_up_forward(o, o.nodes[id].state.content->0, kids, NodeId::nothing());
    }
}

proof fn lemma_restructured_forward<W>(
    ui: UiView<W>,
    rank: Map<WidgetId, nat>,
    top: nat,
    ids: Seq<WidgetId>,
    bound: nat,
)
    requires
        linked(ui.nodes),
        ranked(ui.nodes, rank, top),
    ensures
        goes_forward(ui, restructured(ui, rank, ids, bound)),
    decreases bound, ids.len(),
{
    if ids.len() > 0 {
        let id = ids[0];
        let st = ui.nodes[id].state;
        if ui.nodes.dom().contains(id) && rank[id] < bound && restructures(st) {
            let b = lemma_one_forward(ui, rank, top, id);
            lemma_shape_kept(ui, b, rank, top);
            lemma_restructured_forward(b, rank, top, st.children, rank[id]);
            let c = restructured(b, rank, st.children, rank[id]);
            let next = cleared(c, id, tree_flags());
            assert(next.nodes.dom() =~= c.nodes.dom());
            assert(goes_forward(ui, next));
            lemma_shape_kept(ui, next, rank, top);
            lemma_restructured_forward(next, rank, top, ids.drop_first(), bound);
        } else {
            lemma_restructured_forward(ui, rank, top, ids.drop_first(), bound);
        }
    }
}

proof fn lemma_shape_kept<W>(a: UiView<W>, b: UiView<W>, rank: Map<WidgetId, nat>, top: nat)
    requires
        goes_forward(a, b),
        linked(a.nodes),
        ranked(a.nodes, rank, top),
    ensures
        linked(b.nodes),
        ranked(b.nodes, rank, top),
{
    assert(same_shape(a.nodes, b.nodes));
    lemma_same_shape(a.nodes, b.nodes, rank, top);
}

/// What the tree pass does with one widget before it goes on to its children.
proof fn lemma_one_forward<W>(
    ui: UiView<W>,
    rank: Map<WidgetId, nat>,
    top: nat,
    id: WidgetId,
) -> (b: UiView<W>)
    requires
        linked(ui.nodes),
        ranked(ui.nodes, rank, top),
        ui.nodes.dom().contains(id),
    ensures
        goes_forward(ui, b),
        b == (if ui.nodes[id].state.flags.tree {
            arranged(disclosed(grouped(ui, id), id), id)
        } else {
            disclosed(grouped(ui, id), id)
        }),
        b.nodes[id].state.node is Some,
        ui.nodes[id].state.flags.tree ==> forall|i: int|
            0 <= i < ui.nodes[id].state.children.len()
                ==> b.nodes[#[trigger] ui.nodes[id].state.children[i]].state.node is Some,
{
    let g = grouped(ui, id);
    assert(g.nodes.dom() =~= ui.nodes.dom());
    let a = disclosed(g, id);
    assert(a.nodes.dom() =~= ui.nodes.dom());
    assert(goes_forward(ui, a));
    lemma_shape_kept(ui, a, rank, top);
    let kids = a.nodes[id].state.children;
    assert forall|i: int| 0 <= i < kids.len() implies a.nodes.dom().contains(#[trigger] kids[i]) by {
        lemma_child(a.nodes, rank, top, id, i);
    }
    if ui.nodes[id].state.flags.tree {
        lemma_arranged_forward(a, id);
        arranged(a, id)
    } else {
        a
    }
}

/// The tree pass brings the root on screen where there is something to do, and
/// with it each of its children where those changed. It moves no widget, hides
/// none, and takes nothing off the screen.
pub proof fn a_tree_pass_brings_the_children_on_screen<W>(ui: &Ui<W>, root: WidgetId)
    requires
        ui.wf(),
        ui@.root == Some(root),
        ui@.nodes.dom().contains(root),
    ensures
        goes_forward(ui@, tree_passed(ui@, ui.rank())),
        ui@.nodes[root].state.flags.tree || ui@.nodes[root].state.flags.sub_tree ==> tree_passed(
            ui@,
            ui.rank(),
        ).nodes[root].state.node is Some,
        ui@.nodes[root].state.flags.tree ==> forall|i: int|
            0 <= i < ui@.nodes[root].state.children.len() ==> tree_passed(
                ui@,
                ui.rank(),
            ).nodes[#[trigger] ui@.nodes[root].state.children[i]].state.node is Some,
{
    ui.tree_shape();
    let rank = ui.rank();
    let top = ui.top();
    let v = ui@;
    let ids = seq![root];
    let bound = rank[root] + 1;
    lemma_restructured_forward(v, rank, top, ids, bound);
    let st = v.nodes[root].state;
    if restructures(st) {
        let b = lemma_one_forward(v, rank, top, root);
        lemma_shape_kept(v, b, rank, top);
        lemma_restructured_forward(b, rank, top, st.children, rank[root]);
        let c = restructured(b, rank, st.children, rank[root]);
        let next = cleared(c, root, tree_flags());
        assert(next.nodes.dom() =~= c.nodes.dom());
        assert(ids.drop_first() =~= Seq::empty());
        assert(tree_passed(v, rank) == restructured(next, rank, ids.drop_first(), bound));
        assert(tree_passed(v, rank) == next);
        if st.flags.tree {
            assert forall|i: int| 0 <= i < st.children.len() implies tree_passed(v, rank).nodes[
            #[trigger] st.children[i]].state.node is Some by {
                lemma_child(v.nodes, rank, top, root, i);
                assert(b.nodes.dom().contains(st.children[i]));
            }
        }
    }
}

} // verus!
