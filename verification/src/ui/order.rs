//! What the server makes of the tree pass: the order of the groups under a
//! widget's content group.

use vstd::prelude::*;

use crate::arena::{NodeId, WidgetId, WidgetView};
use crate::tree::Nodes;
use crate::ui::passes::{lined_up, put};
use crate::ui::{Op, UiView};

verus! {

/// The position of the first `x` in `s`, or its length.
pub open spec fn position(s: Seq<NodeId>, x: NodeId) -> nat
    decreases s.len(),
{
    if s.len() == 0 || s[0] == x {
        0
    } else {
        1 + position(s.drop_first(), x)
    }
}

/// `s` without its first `x`.
pub open spec fn lifted_out(s: Seq<NodeId>, x: NodeId) -> Seq<NodeId> {
    let i = position(s, x) as int;
    if i < s.len() {
        s.take(i) + s.skip(i + 1)
    } else {
        s
    }
}

/// `s` with `x` in front of `before`, or at the end if that is not there.
pub open spec fn dropped_in(s: Seq<NodeId>, x: NodeId, before: NodeId) -> Seq<NodeId> {
    let i = position(s, before) as int;
    s.take(i) + seq![x] + s.skip(i)
}

/// What one change does to the groups under `group`.
pub open spec fn applied(s: Seq<NodeId>, op: Op, group: NodeId) -> Seq<NodeId> {
    match op {
        Op::CreateGroup { node, parent, before } => if parent == group {
            dropped_in(s, node, before)
        } else {
            s
        },
        Op::Reparent { node, parent, before } => if parent == group {
            dropped_in(lifted_out(s, node), node, before)
        } else {
            lifted_out(s, node)
        },
        Op::Destroy { node } => lifted_out(s, node),
        _ => s,
    }
}

/// What a run of changes does to the groups under `group`.
pub open spec fn replayed(s: Seq<NodeId>, ops: Seq<Op>, group: NodeId) -> Seq<NodeId>
    decreases ops.len(),
{
    if ops.len() == 0 {
        s
    } else {
        replayed(applied(s, ops[0], group), ops.drop_first(), group)
    }
}

/// Whether the group of `c` was last put into `content`.
pub open spec fn settled_in(st: WidgetView, content: NodeId) -> bool {
    st.node is Some && (st.attached matches Some(at) && at.0 == content)
}

/// The groups of those of `kids` that were last put into `content`.
pub open spec fn kept_nodes<W>(m: Nodes<W>, content: NodeId, kids: Seq<WidgetId>) -> Seq<NodeId>
    decreases kids.len(),
{
    if kids.len() == 0 {
        Seq::empty()
    } else {
        let head = kept_nodes(m, content, kids.drop_last());
        let st = m[kids.last()].state;
        if settled_in(st, content) {
            head.push(st.node->0)
        } else {
            head
        }
    }
}

/// The groups of `kids`.
pub open spec fn kid_nodes<W>(m: Nodes<W>, kids: Seq<WidgetId>) -> Seq<NodeId> {
    kids.map_values(|c: WidgetId| m[c].state.node->0)
}

/// The groups of `kids` that exist are distinct, are not the id that names
/// nothing, and were handed out before `next`.
pub open spec fn told_apart<W>(m: Nodes<W>, kids: Seq<WidgetId>, next: int) -> bool {
    &&& forall|i: int|
        0 <= i < kids.len() ==> (m[#[trigger] kids[i]].state.node matches Some(n) ==> 0 < n.0
            && n.0 < next)
    &&& forall|i: int, j: int|
        0 <= i < j < kids.len() && m[#[trigger] kids[i]].state.node is Some && m[#[trigger] kids[j]].state.node is Some
            ==> m[kids[i]].state.node != m[kids[j]].state.node
}

proof fn lemma_position_miss(s: Seq<NodeId>, x: NodeId)
    requires
        !s.contains(x),
    ensures
        position(s, x) == s.len(),
    decreases s.len(),
{
    if s.len() > 0 {
        let t = s.drop_first();
        assert(s[0] != x);
        if t.contains(x) {
            let k = choose|k: int| 0 <= k < t.len() && t[k] == x;
            assert(s[k + 1] == x);
        }
        lemma_position_miss(t, x);
    }
}

proof fn lemma_position_split(a: Seq<NodeId>, x: NodeId, b: Seq<NodeId>)
    requires
        !a.contains(x),
    ensures
        position(a + (seq![x] + b), x) == a.len(),
    decreases a.len(),
{
    let s = a + (seq![x] + b);
    if a.len() == 0 {
        assert(s[0] == x);
    } else {
        let t = a.drop_first();
        assert(s[0] == a[0]);
        assert(a[0] != x);
        if t.contains(x) {
            let k = choose|k: int| 0 <= k < t.len() && t[k] == x;
            assert(a[k + 1] == x);
        }
        assert(s.drop_first() =~= t + (seq![x] + b));
        lemma_position_split(t, x, b);
    }
}

/// Dropping `x` in front of the first of `done`, behind `head`.
proof fn lemma_dropped_between(head: Seq<NodeId>, x: NodeId, done: Seq<NodeId>)
    requires
        done.len() > 0 ==> !head.contains(done[0]),
        !head.contains(NodeId::nothing()),
        !done.contains(NodeId::nothing()),
    ensures
        dropped_in(
            head + done,
            x,
            if done.len() > 0 {
                done[0]
            } else {
                NodeId::nothing()
            },
        ) == head + (seq![x] + done),
{
    let s = head + done;
    if done.len() > 0 {
        assert(done =~= seq![done[0]] + done.drop_first());
        lemma_position_split(head, done[0], done.drop_first());
        assert(s =~= head + (seq![done[0]] + done.drop_first()));
        assert(s.take(head.len() as int) =~= head);
        assert(s.skip(head.len() as int) =~= done);
        assert(head + seq![x] + done =~= head + (seq![x] + done));
    } else {
        assert(s =~= head);
        lemma_position_miss(s, NodeId::nothing());
        assert(s.take(s.len() as int) =~= head);
        assert(s.skip(s.len() as int) =~= done);
        assert(head + seq![x] + done =~= head + (seq![x] + done));
    }
}

proof fn lemma_lifted_between(head: Seq<NodeId>, x: NodeId, done: Seq<NodeId>)
    requires
        !head.contains(x),
    ensures
        lifted_out(head + (seq![x] + done), x) == head + done,
{
    lemma_position_split(head, x, done);
    let s = head + (seq![x] + done);
    assert(s.take(head.len() as int) =~= head);
    assert(s.skip(head.len() as int + 1) =~= done);
}

proof fn lemma_lifted_miss(s: Seq<NodeId>, x: NodeId)
    requires
        !s.contains(x),
    ensures
        lifted_out(s, x) == s,
{
    lemma_position_miss(s, x);
}

proof fn lemma_kept_nodes<W>(m: Nodes<W>, content: NodeId, kids: Seq<WidgetId>)
    ensures
        forall|n: NodeId| #[trigger]
            kept_nodes(m, content, kids).contains(n) ==> exists|i: int|
                0 <= i < kids.len() && m[#[trigger] kids[i]].state.node == Some(n),
    decreases kids.len(),
{
    if kids.len() > 0 {
        let head = kids.drop_last();
        lemma_kept_nodes(m, content, head);
        assert forall|n: NodeId| #[trigger] kept_nodes(m, content, kids).contains(n) implies exists|i: int|
            0 <= i < kids.len() && m[#[trigger] kids[i]].state.node == Some(n) by {
            let all = kept_nodes(m, content, kids);
            let k = choose|k: int| 0 <= k < all.len() && all[k] == n;
            let front = kept_nodes(m, content, head);
            if k < front.len() {
                assert(front[k] == n);
                assert(front.contains(n));
                let i = choose|i: int| 0 <= i < head.len() && m[#[trigger] head[i]].state.node == Some(n);
                assert(kids[i] == head[i]);
            } else {
                assert(m[kids[kids.len() - 1]].state.node == Some(n));
            }
        }
    }
}

proof fn lemma_kept_same<W>(a: Nodes<W>, b: Nodes<W>, content: NodeId, kids: Seq<WidgetId>)
    requires
        forall|i: int| 0 <= i < kids.len() ==> a[#[trigger] kids[i]] == b[kids[i]],
    ensures
        kept_nodes(a, content, kids) == kept_nodes(b, content, kids),
    decreases kids.len(),
{
    if kids.len() > 0 {
        let head = kids.drop_last();
        assert forall|i: int| 0 <= i < head.len() implies a[#[trigger] head[i]] == b[head[i]] by {
            assert(head[i] == kids[i]);
        }
        lemma_kept_same(a, b, content, head);
        assert(a[kids[kids.len() - 1]] == b[kids[kids.len() - 1]]);
    }
}

/// Lining up gives every child a group and touches nothing else.
proof fn lemma_line_frame<W>(
    ui: UiView<W>,
    content: NodeId,
    kids: Seq<WidgetId>,
    before: NodeId,
)
    requires
        kids.no_duplicates(),
    ensures
        ({
            let z = lined_up(ui, content, kids, before);
            &&& forall|i: int| 0 <= i < kids.len() ==> z.nodes[#[trigger] kids[i]].state.node is Some
            &&& forall|x: WidgetId| !kids.contains(x) ==> #[trigger] z.nodes[x] == ui.nodes[x]
            &&& z.ops.len() >= ui.ops.len()
            &&& z.ops.take(ui.ops.len() as int) == ui.ops
        }),
    decreases kids.len(),
{
    let z = lined_up(ui, content, kids, before);
    if kids.len() == 0 {
        assert(z.ops.take(ui.ops.len() as int) =~= ui.ops);
    } else {
        let last = kids.len() - 1;
        let c = kids.last();
        let head = kids.drop_last();
        let n = put(ui, content, c, before);
        let node = n.nodes[c].state.node->0;
        assert(head.no_duplicates());
        lemma_line_frame(n, content, head, node);
        assert(z == lined_up(n, content, head, node));
        assert(!head.contains(c)) by {
            if head.contains(c) {
                let i = choose|i: int| 0 <= i < head.len() && head[i] == c;
                assert(kids[i] == kids[last]);
            }
        }
        assert(z.nodes[c] == n.nodes[c]);
        assert(n.nodes[c].state.node is Some);
        assert forall|i: int| 0 <= i < kids.len() implies z.nodes[#[trigger] kids[i]].state.node is Some by {
            if i < last {
                assert(head[i] == kids[i]);
            }
        }
        assert forall|x: WidgetId| !kids.contains(x) implies #[trigger] z.nodes[x] == ui.nodes[x] by {
            assert(x != c) by {
                assert(kids.contains(kids[last]));
            }
            assert(!head.contains(x)) by {
                if head.contains(x) {
                    let i = choose|i: int| 0 <= i < head.len() && head[i] == x;
                    assert(kids[i] == x);
                }
            }
            assert(z.nodes[x] == n.nodes[x]);
        }
        assert(n.ops.take(ui.ops.len() as int) =~= ui.ops);
        assert(z.ops.take(ui.ops.len() as int) =~= ui.ops) by {
            assert(z.ops.take(n.ops.len() as int).take(ui.ops.len() as int) =~= z.ops.take(
                ui.ops.len() as int,
            ));
        }
    }
}

spec fn head_or_nothing(done: Seq<NodeId>) -> NodeId {
    if done.len() > 0 {
        done[0]
    } else {
        NodeId::nothing()
    }
}

/// One child's group goes in front of those in place.
proof fn lemma_put_step<W>(
    ui: UiView<W>,
    content: NodeId,
    c: WidgetId,
    front: Seq<NodeId>,
    done: Seq<NodeId>,
)
    requires
        ({
            let n = put(ui, content, c, head_or_nothing(done));
            let node = n.nodes[c].state.node->0;
            &&& !front.contains(node)
            &&& ui.nodes[c].state.node is Some ==> !done.contains(node)
            &&& !front.contains(NodeId::nothing())
            &&& !done.contains(NodeId::nothing())
            &&& done.len() > 0 ==> !front.contains(done[0])
        }),
    ensures
        ({
            let st = ui.nodes[c].state;
            let n = put(ui, content, c, head_or_nothing(done));
            let node = n.nodes[c].state.node->0;
            let start = if settled_in(st, content) {
                front + (seq![node] + done)
            } else {
                front + done
            };
            replayed(start, n.ops.skip(ui.ops.len() as int), content) == front + (seq![node] + done)
        }),
{
    let before = head_or_nothing(done);
    let st = ui.nodes[c].state;
    let n = put(ui, content, c, before);
    let node = n.nodes[c].state.node->0;
    let start = if settled_in(st, content) {
        front + (seq![node] + done)
    } else {
        front + done
    };
    let added = n.ops.skip(ui.ops.len() as int);
    lemma_dropped_between(front, node, done);
    if st.node is Some {
        assert(node == st.node->0);
        if st.attached == Some((content, before)) {
            assert(added =~= Seq::<Op>::empty());
        } else {
            let op = Op::Reparent { node, parent: content, before };
            assert(added =~= seq![op]);
            assert(added.drop_first() =~= Seq::<Op>::empty());
            if settled_in(st, content) {
                lemma_lifted_between(front, node, done);
            } else {
                assert(!(front + done).contains(node)) by {
                    let all = front + done;
                    if all.contains(node) {
                        let k = choose|k: int| 0 <= k < all.len() && all[k] == node;
                        if k < front.len() {
                            assert(front[k] == node);
                        } else {
                            assert(done[k - front.len()] == node);
                        }
                    }
                }
                lemma_lifted_miss(front + done, node);
            }
            assert(replayed(applied(start, op, content), added.drop_first(), content) == applied(
                start,
                op,
                content,
            ));
        }
    } else {
        let op = Op::CreateGroup { node, parent: content, before };
        assert(added =~= seq![op]);
        assert(added.drop_first() =~= Seq::<Op>::empty());
        assert(replayed(applied(start, op, content), added.drop_first(), content) == applied(
            start,
            op,
            content,
        ));
    }
}

/// Lining up the groups of `kids` in front of those in `done`, which are in
/// place already.
proof fn lemma_lines_up<W>(
    ui: UiView<W>,
    content: NodeId,
    kids: Seq<WidgetId>,
    done: Seq<NodeId>,
)
    requires
        kids.no_duplicates(),
        told_apart(ui.nodes, kids, ui.next_node),
        0 < ui.next_node,
        ui.next_node + kids.len() <= 0x1_0000_0000,
        forall|i: int| 0 <= i < done.len() ==> 0 < (#[trigger] done[i]).0 < ui.next_node,
        forall|i: int, j: int|
            0 <= i < kids.len() && 0 <= j < done.len() ==> ui.nodes[#[trigger] kids[i]].state.node
                != Some(#[trigger] done[j]),
    ensures
        ({
            let z = lined_up(ui, content, kids, head_or_nothing(done));
            replayed(
                kept_nodes(ui.nodes, content, kids) + done,
                z.ops.skip(ui.ops.len() as int),
                content,
            ) == kid_nodes(z.nodes, kids) + done
        }),
    decreases kids.len(),
{
    let before = head_or_nothing(done);
    let z = lined_up(ui, content, kids, before);
    let m = ui.nodes;
    if kids.len() == 0 {
        assert(z.ops.skip(ui.ops.len() as int) =~= Seq::<Op>::empty());
        assert(kid_nodes(z.nodes, kids) + done =~= kept_nodes(m, content, kids) + done);
    } else {
        let last = kids.len() - 1;
        let c = kids.last();
        assert(c == kids[last]);
        let head = kids.drop_last();
        let st = m[c].state;
        let n = put(ui, content, c, before);
        let node = n.nodes[c].state.node->0;
        let done2 = seq![node] + done;
        let start = kept_nodes(m, content, kids) + done;
        let front = kept_nodes(m, content, head);
        lemma_kept_nodes(m, content, head);
        assert forall|k: int| 0 <= k < front.len() implies #[trigger] front[k] != node && front[k].0 > 0
            && (done.len() > 0 ==> front[k] != done[0]) by {
            assert(front.contains(front[k]));
            let i = choose|i: int| 0 <= i < head.len() && m[#[trigger] head[i]].state.node == Some(front[k]);
            assert(kids[i] == head[i]);
            assert(m[kids[i]].state.node is Some);
            if st.node is Some {
                assert(m[kids[i]].state.node != m[kids[last]].state.node);
            }
            if done.len() > 0 {
                assert(m[kids[i]].state.node != Some(done[0]));
            }
        }
        assert(st.node is Some ==> !done.contains(node)) by {
            if done.contains(node) && st.node is Some {
                let j = choose|j: int| 0 <= j < done.len() && done[j] == node;
                assert(m[kids[last]].state.node != Some(done[j]));
            }
        }
        lemma_put_step(ui, content, c, front, done);
        assert(start =~= (if settled_in(st, content) {
            front + (seq![node] + done)
        } else {
            front + done
        }));
        let added = n.ops.skip(ui.ops.len() as int);
        assert(replayed(start, added, content) == front + done2);
        assert(head.no_duplicates());
        assert forall|i: int| 0 <= i < head.len() implies n.nodes[#[trigger] head[i]] == m[head[i]] by {
            assert(head[i] == kids[i]);
            assert(kids[i] != kids[last]);
        }
        assert(told_apart(n.nodes, head, n.next_node)) by {
            assert forall|i: int| 0 <= i < head.len() implies (
            n.nodes[#[trigger] head[i]].state.node matches Some(q) ==> 0 < q.0 && q.0 < n.next_node) by {
                assert(head[i] == kids[i]);
            }
            assert forall|i: int, j: int|
                0 <= i < j < head.len() && n.nodes[#[trigger] head[i]].state.node is Some
                    && n.nodes[#[trigger] head[j]].state.node is Some implies n.nodes[head[i]].state.node
                != n.nodes[head[j]].state.node by {
                assert(head[i] == kids[i] && head[j] == kids[j]);
            }
        }
        assert forall|i: int| 0 <= i < done2.len() implies 0 < (#[trigger] done2[i]).0 < n.next_node by {
            if i > 0 {
                assert(done2[i] == done[i - 1]);
            }
        }
        assert forall|i: int, j: int|
            0 <= i < head.len() && 0 <= j < done2.len() implies n.nodes[#[trigger] head[i]].state.node
            != Some(#[trigger] done2[j]) by {
            assert(head[i] == kids[i]);
            if j > 0 {
                assert(done2[j] == done[j - 1]);
            } else {
                if m[kids[i]].state.node is Some && st.node is Some {
                    assert(m[kids[i]].state.node != m[kids[last]].state.node);
                }
            }
        }
        assert(done2[0] == node);
        assert(head_or_nothing(done2) == node);
        lemma_lines_up(n, content, head, done2);
        lemma_kept_same(m, n.nodes, content, head);
        lemma_line_frame(n, content, head, node);
        assert(z == lined_up(n, content, head, node));
        let later = z.ops.skip(n.ops.len() as int);
        let fresh = z.ops.skip(ui.ops.len() as int);
        assert(n.ops.take(ui.ops.len() as int) =~= ui.ops);
        assert(fresh =~= added + later) by {
            assert(z.ops =~= z.ops.take(n.ops.len() as int) + later);
        }
        lemma_replayed_concat(start, added, later, content);
        assert(!head.contains(c)) by {
            if head.contains(c) {
                let i = choose|i: int| 0 <= i < head.len() && head[i] == c;
                assert(kids[i] == kids[last]);
            }
        }
        assert(z.nodes[c] == n.nodes[c]);
        assert(kid_nodes(z.nodes, kids) + done =~= kid_nodes(z.nodes, head) + done2);
    }
}

proof fn lemma_replayed_concat(s: Seq<NodeId>, a: Seq<Op>, b: Seq<Op>, group: NodeId)
    ensures
        replayed(s, a + b, group) == replayed(replayed(s, a, group), b, group),
    decreases a.len(),
{
    if a.len() == 0 {
        assert(a + b =~= b);
    } else {
        assert((a + b).drop_first() =~= a.drop_first() + b);
        lemma_replayed_concat(applied(s, a[0], group), a.drop_first(), b, group);
    }
}

/// The scene's order follows the widget's: when a content group holds the
/// groups of the children that were put into it before, in the order of the
/// children, then after the children were lined up it holds the groups of
/// all of them, in their order.
pub proof fn children_in_order<W>(
    ui: UiView<W>,
    content: NodeId,
    kids: Seq<WidgetId>,
    scene: Seq<NodeId>,
)
    requires
        kids.no_duplicates(),
        told_apart(ui.nodes, kids, ui.next_node),
        0 < ui.next_node,
        ui.next_node + kids.len() <= 0x1_0000_0000,
        scene == kept_nodes(ui.nodes, content, kids),
    ensures
        ({
            let z = lined_up(ui, content, kids, NodeId::nothing());
            replayed(scene, z.ops.skip(ui.ops.len() as int), content) == kid_nodes(z.nodes, kids)
        }),
{
    let none = Seq::<NodeId>::empty();
    lemma_lines_up(ui, content, kids, none);
    let z = lined_up(ui, content, kids, NodeId::nothing());
    assert(kept_nodes(ui.nodes, content, kids) + none =~= scene);
    assert(kid_nodes(z.nodes, kids) + none =~= kid_nodes(z.nodes, kids));
}

} // verus!
