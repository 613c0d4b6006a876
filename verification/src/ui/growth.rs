//! What may be relied on when widgets are marked, moved and removed: what
//! changes, and what does not.

use vstd::prelude::*;

use crate::arena::{WidgetId, WidgetView};
use crate::dirty::Dirty;
use crate::tree::{
    ancestors, dropped, flagged, lemma_ancestors, lemma_climb_bound, lemma_forest_closed,
    lemma_forest_live, lemma_marked_shape, lemma_same_shape, lemma_subtree_distinct, lemma_unhung,
    linked, marked, ranked, same_shape, subtree, trail, unhung, with_state, Nodes,
};
use crate::ui::pointer::what_is_left_over;
use crate::ui::stand_in::put_before;
use crate::ui::{
    everything, hung, joined, lemma_parted, outside, outside_pairs, parted, removed, structure, Op,
    Ui,
};

verus! {

// ---------------------------------------------------------------------
// marks
// ---------------------------------------------------------------------

/// Whether nothing but marks and the memory of a measurement differs.
pub open spec fn same_but_marks(a: WidgetView, b: WidgetView) -> bool {
    b == (WidgetView { flags: b.flags, measured: b.measured, ..a })
}

/// A mark arrives: the widget carries every flag it was marked with and those
/// it had, and forgets its measurement where it is to be laid out again. Its
/// ancestors at most get marks that say that something below them is to be
/// done; nothing else changes in the tree, and no mark is ever lost.
pub proof fn a_mark_arrives<W>(
    m: Nodes<W>,
    rank: Map<WidgetId, nat>,
    top: nat,
    id: WidgetId,
    flags: Dirty,
    x: WidgetId,
)
    requires
        linked(m),
        ranked(m, rank, top),
        m.dom().contains(id),
        m.dom().contains(x),
    ensures
        ({
            let n = marked(m, rank, top, id, flags);
            &&& n.dom() == m.dom()
            &&& n[x].widget == m[x].widget
            &&& same_but_marks(m[x].state, n[x].state)
            &&& n[x].state.flags.covers(m[x].state.flags)
            &&& n[id].state.flags.covers(flags)
            &&& flags.layout ==> !n[id].state.measured
            &&& n[id].state.flags == m[id].state.flags.with(flags)
            &&& x != id && !ancestors(m, rank, top, id).contains(x) ==> n[x] == m[x]
            &&& x != id ==> n[x].state.flags.layout == m[x].state.flags.layout
                && n[x].state.flags.paint == m[x].state.flags.paint && n[x].state.flags.tree
                == m[x].state.flags.tree
        }),
{
    reveal(flagged);
    let n = marked(m, rank, top, id, flags);
    assert(n.dom() =~= m.dom());
    let chain = ancestors(m, rank, top, id);
    lemma_ancestors(m, rank, top, id);
    let k = crate::tree::climb(m, chain, flags.trail()) as int;
    lemma_climb_bound(m, chain, flags.trail());
    if chain.take(k).contains(x) {
        let i = choose|i: int| 0 <= i < k && chain.take(k)[i] == x;
        assert(chain[i] == x);
    }
}

/// A pass that looks for marks finds every one: the parent of a widget that
/// was marked to be painted is marked to be looked into.
pub proof fn a_mark_is_found_from_above<W>(
    m: Nodes<W>,
    rank: Map<WidgetId, nat>,
    top: nat,
    id: WidgetId,
    p: WidgetId,
)
    requires
        linked(m),
        ranked(m, rank, top),
        trail(m),
        m.dom().contains(id),
        m[id].state.parent == Some(p),
    ensures
        ({
            let n = marked(m, rank, top, id, Dirty { paint: true, ..Dirty::clean() });
            n[p].state.flags.paint || n[p].state.flags.sub_paint
        }),
        ({
            let n = marked(m, rank, top, id, Dirty { tree: true, ..Dirty::clean() });
            n[p].state.flags.tree || n[p].state.flags.sub_tree
        }),
{
    let paint = Dirty { paint: true, ..Dirty::clean() };
    let tree = Dirty { tree: true, ..Dirty::clean() };
    a_mark_arrives(m, rank, top, id, paint, id);
    a_mark_arrives(m, rank, top, id, tree, id);
    crate::tree::mark_keeps_the_trail(m, rank, top, id, paint);
    crate::tree::mark_keeps_the_trail(m, rank, top, id, tree);
    reveal(trail);
    assert(marked(m, rank, top, id, paint).dom().contains(id));
    assert(marked(m, rank, top, id, tree).dom().contains(id));
}

// ---------------------------------------------------------------------
// moving
// ---------------------------------------------------------------------

/// Taking one widget out closes the gap: what was before it and what was
/// behind it follow each other, in the order they had.
pub proof fn dropping_closes_the_gap(a: Seq<WidgetId>, x: WidgetId, b: Seq<WidgetId>)
    requires
        !a.contains(x),
        !b.contains(x),
    ensures
        dropped(a + seq![x] + b, x) == a + b,
    decreases b.len(),
{
    let all = a + seq![x] + b;
    if b.len() == 0 {
        assert(all.last() == x);
        assert(all.drop_last() =~= a);
        lemma_nothing_to_drop(a, x);
        assert(a + b =~= a);
    } else {
        let head = b.drop_last();
        assert(!head.contains(x)) by {
            if head.contains(x) {
                let i = choose|i: int| 0 <= i < head.len() && head[i] == x;
                assert(b[i] == x);
            }
        }
        dropping_closes_the_gap(a, x, head);
        assert(b.contains(b[b.len() - 1]));
        assert(all.drop_last() =~= a + seq![x] + head);
        assert(all.last() == b.last());
        assert((a + head).push(b.last()) =~= a + b);
    }
}

proof fn lemma_nothing_to_drop(s: Seq<WidgetId>, x: WidgetId)
    requires
        !s.contains(x),
    ensures
        dropped(s, x) == s,
    decreases s.len(),
{
    if s.len() > 0 {
        let head = s.drop_last();
        assert(s.contains(s[s.len() - 1]));
        if head.contains(x) {
            let i = choose|i: int| 0 <= i < head.len() && head[i] == x;
            assert(s[i] == x);
        }
        lemma_nothing_to_drop(head, x);
        assert(head.push(s.last()) =~= s);
    } else {
        assert(dropped(s, x) =~= s);
    }
}

/// Moving a widget makes it the last child of its new parent, and of no other
/// widget; every other child stays where it is, and so does everything below
/// the widget. The new parent is to be laid out and its children sent anew,
/// and the widget is to be drawn.
pub proof fn moving_moves_one_widget<W>(
    m: Nodes<W>,
    rank: Map<WidgetId, nat>,
    top: nat,
    ranks: Map<WidgetId, nat>,
    tops: nat,
    p: WidgetId,
    c: WidgetId,
    x: WidgetId,
)
    requires
        linked(m),
        ranked(m, rank, top),
        m.dom().contains(p),
        m.dom().contains(c),
        m.dom().contains(x),
        p != c,
    ensures
        ({
            let n = joined(parted(m, rank, top, c), ranks, tops, p, c);
            &&& n.dom() == m.dom()
            &&& n[c].state.parent == Some(p)
            &&& n[p].state.children == dropped(m[p].state.children, c).push(c)
            &&& x != p ==> n[x].state.children == dropped(m[x].state.children, c)
            &&& x != c ==> n[x].state.parent == m[x].state.parent
            &&& n[x].widget == m[x].widget
            &&& n[c].state.flags.paint && n[c].state.flags.layout && n[c].state.flags.tree
            &&& n[p].state.flags.layout && n[p].state.flags.tree
        }),
{
    reveal(flagged);
    let d = parted(m, rank, top, c);
    lemma_parted(m, rank, top, c);
    lemma_unhung(m, rank, top, c);
    let u = unhung(m, c);
    let h = hung(d, p, c);
    assert(h.dom() =~= m.dom());
    let a = marked(h, ranks, tops, p, structure());
    lemma_marked_shape(h, ranks, tops, p, structure());
    let n = joined(d, ranks, tops, p, c);
    lemma_marked_shape(a, ranks, tops, c, everything());
    assert(same_shape(d, u));
    assert(d.dom().contains(x) && d.dom().contains(p) && d.dom().contains(c));
    assert(h.dom().contains(x) && h.dom().contains(p) && h.dom().contains(c));
    assert(a.dom().contains(x) && a.dom().contains(p) && a.dom().contains(c));
    // whoever is not the old parent has no such child
    assert forall|y: WidgetId| #[trigger] m.dom().contains(y) && m[c].state.parent != Some(
        y,
    ) implies dropped(m[y].state.children, c) == m[y].state.children by {
        reveal(linked);
        if m[y].state.children.contains(c) {
            let i = choose|i: int| 0 <= i < m[y].state.children.len() && m[y].state.children[i] == c;
            assert(m[m[y].state.children[i]].state.parent == Some(y));
        }
        lemma_nothing_to_drop(m[y].state.children, c);
    }
    assert(u[p].state.children == dropped(m[p].state.children, c));
    assert(u[x].state.children == dropped(m[x].state.children, c));
    assert(u[x].widget == m[x].widget);
    assert(d[x].widget == u[x].widget);
}

// ---------------------------------------------------------------------
// removing
// ---------------------------------------------------------------------

/// What goes with a widget: the widget, every child of what goes, and nothing
/// that is not the widget or a child of what goes; each once.
pub proof fn a_subtree_is_everything_below<W>(ui: &Ui<W>, id: WidgetId)
    requires
        ui.wf(),
        ui@.nodes.dom().contains(id),
    ensures
        ({
            let gone = ui.subtree(id);
            let m = ui@.nodes;
            &&& gone.len() > 0 && gone[0] == id
            &&& gone.no_duplicates()
            &&& forall|i: int| 0 <= i < gone.len() ==> m.dom().contains(#[trigger] gone[i])
            &&& forall|x: WidgetId, i: int|
                gone.contains(x) && 0 <= i < m[x].state.children.len() ==> gone.contains(
                    #[trigger] m[x].state.children[i],
                )
            &&& forall|x: WidgetId| #[trigger]
                gone.contains(x) && x != id ==> (m[x].state.parent matches Some(p)
                    && gone.contains(p))
        }),
{
    ui.tree_shape();
    let m = ui@.nodes;
    let rank = ui.rank();
    let ids = seq![id];
    let gone = ui.subtree(id);
    lemma_subtree_distinct(m, rank, ui.top(), ids, rank[id] + 1);
    lemma_forest_live(m, rank, ids, rank[id] + 1);
    assert forall|i: int| 0 <= i < ids.len() implies m.dom().contains(#[trigger] ids[i])
        && rank[ids[i]] < rank[id] + 1 by {}
    lemma_forest_closed(m, rank, ui.top(), ids, rank[id] + 1);
    crate::tree::lemma_subtree(m, rank, ui.top(), id);
    assert forall|x: WidgetId| #[trigger] gone.contains(x) && x != id implies (
    m[x].state.parent matches Some(p) && gone.contains(p)) by {
        if ids.contains(x) {
            let i = choose|i: int| 0 <= i < ids.len() && ids[i] == x;
        }
    }
}

/// Removing a widget takes it and everything below it, and nothing else: the
/// other widgets stay where they are, but that its parent has one child less.
/// Nothing that is gone is under the pointer, waits to be told of the focus,
/// or has it; what stays under the pointer stays so in order; and what was on
/// screen of it goes with one message.
pub proof fn removing_takes_the_subtree_only<W>(ui: &Ui<W>, id: WidgetId, x: WidgetId)
    requires
        ui.wf(),
        ui@.nodes.dom().contains(id),
    ensures
        ({
            let m = ui@.nodes;
            let gone = ui.subtree(id);
            let v = removed(ui@, ui.rank(), ui.top(), id);
            &&& v.nodes.dom().contains(x) <==> m.dom().contains(x) && !gone.contains(x)
            &&& v.nodes.dom().contains(x) ==> v.nodes[x].widget == m[x].widget
                && v.nodes[x].state.parent == m[x].state.parent && v.nodes[x].state.children
                == dropped(m[x].state.children, id)
            &&& v.hover.contains(x) <==> ui@.hover.contains(x) && !gone.contains(x)
            &&& v.focused is None || v.focused == ui@.focused
            &&& gone.contains(x) && m[x].state.focused ==> v.focused is None
            &&& (forall|y: WidgetId| #[trigger] gone.contains(y) ==> !m[y].state.focused)
                ==> v.focused == ui@.focused
            &&& m[id].state.node matches Some(node) ==> v.ops == ui@.ops.push(Op::Destroy { node })
            &&& m[id].state.node is None ==> v.ops == ui@.ops
            &&& m[id].state.parent is None && ui@.root == Some(id) ==> v.root is None
            &&& ui@.root != Some(id) ==> v.root == ui@.root
            &&& v.activations == ui@.activations && v.quit == ui@.quit
        }),
{
    reveal(flagged);
    ui.tree_shape();
    let m = ui@.nodes;
    let rank = ui.rank();
    let top = ui.top();
    let gone = ui.subtree(id);
    let v = removed(ui@, rank, top, id);
    let d = parted(m, rank, top, id);
    a_subtree_is_everything_below(ui, id);
    lemma_parted(m, rank, top, id);
    lemma_unhung(m, rank, top, id);
    what_is_left_over(ui@.hover, gone, x);
    assert(gone.to_set().contains(x) <==> gone.contains(x));
    if m.dom().contains(x) {
        assert(d.dom().contains(x));
        let u = unhung(m, id);
        assert(u[x].widget == m[x].widget);
        if m[id].state.parent != Some(x) {
            reveal(linked);
            if m[x].state.children.contains(id) {
                let i = choose|i: int|
                    0 <= i < m[x].state.children.len() && m[x].state.children[i] == id;
                assert(m[m[x].state.children[i]].state.parent == Some(x));
            }
            lemma_nothing_to_drop(m[x].state.children, id);
        }
    }
    if gone.contains(x) && m[x].state.focused {
        let i = choose|i: int| 0 <= i < gone.len() && gone[i] == x;
        assert(m[gone[i]].state.focused);
    }
    if forall|y: WidgetId| #[trigger] gone.contains(y) ==> !m[y].state.focused {
        assert forall|i: int| 0 <= i < gone.len() implies !m[#[trigger] gone[i]].state.focused by {
            assert(gone.contains(gone[i]));
        }
    }
}

/// A folded widget is folded, it is laid out and painted again, and what it is
/// in is laid out again; nothing else about any widget changes but marks.
pub proof fn folding_lays_out_around<W>(ui: &Ui<W>, id: WidgetId, collapsed: bool, x: WidgetId)
    requires
        ui.wf(),
        ui@.nodes.dom().contains(id),
        ui@.nodes.dom().contains(x),
    ensures
        ({
            let m = ui@.nodes;
            let n = ui.folded(id, collapsed);
            &&& n.dom() == m.dom()
            &&& n[x].widget == m[x].widget
            &&& n[id].state.collapsed == collapsed
            &&& n[id].state.flags.layout && n[id].state.flags.paint
            &&& x != id ==> same_but_marks(m[x].state, n[x].state)
            &&& same_but_marks((WidgetView { collapsed, ..m[id].state }), n[id].state)
            &&& m[id].state.parent == Some(x) ==> n[x].state.flags.layout
            &&& x != id && m[id].state.parent != Some(x) ==> n[x].state.flags.layout
                == m[x].state.flags.layout && n[x].state.flags.paint == m[x].state.flags.paint
        }),
{
    ui.tree_shape();
    let m = ui@.nodes;
    let rank = ui.rank();
    let top = ui.top();
    let a = with_state(m, id, WidgetView { collapsed, ..m[id].state });
    let own = Dirty { layout: true, paint: true, ..Dirty::clean() };
    let b = marked(a, rank, top, id, own);
    assert(a.dom() =~= m.dom());
    assert(same_shape(m, a));
    lemma_same_shape(m, a, rank, top);
    a_mark_arrives(a, rank, top, id, own, x);
    a_mark_arrives(a, rank, top, id, own, id);
    if let Some(p) = m[id].state.parent {
        reveal(linked);
        assert(m.dom().contains(p) && m[p] == m[p]);
        lemma_marked_shape(a, rank, top, id, own);
        lemma_same_shape(a, b, rank, top);
        a_mark_arrives(b, rank, top, p, Dirty { layout: true, ..Dirty::clean() }, x);
        a_mark_arrives(b, rank, top, p, Dirty { layout: true, ..Dirty::clean() }, id);
    }
}

/// A widget that is put before another stands right before it, and the others
/// stand as they stood.
pub proof fn putting_before_opens_a_gap(s: Seq<WidgetId>, i: int, x: WidgetId)
    requires
        0 <= i < s.len(),
        forall|k: int| i < k < s.len() ==> s[k] != s[i],
    ensures
        put_before(s, s[i], x) == s.take(i) + seq![x] + s.skip(i),
    decreases s.len(),
{
    let rest = s.drop_last();
    if i == s.len() - 1 {
        assert(put_before(s, s[i], x) =~= s.take(i) + seq![x] + s.skip(i));
    } else {
        assert(s.last() != s[i]);
        assert(rest[i] == s[i]);
        assert forall|k: int| i < k < rest.len() implies rest[k] != rest[i] by {
            assert(rest[k] == s[k]);
        }
        putting_before_opens_a_gap(rest, i, x);
        assert(put_before(s, s[i], x) =~= s.take(i) + seq![x] + s.skip(i));
    }
}

/// A parent that loses a child is to be laid out and its children sent anew;
/// nothing changes of any widget but marks and where the child was.
pub proof fn losing_a_child_is_noticed<W>(
    m: Nodes<W>,
    rank: Map<WidgetId, nat>,
    top: nat,
    p: WidgetId,
    c: WidgetId,
    x: WidgetId,
)
    requires
        linked(m),
        ranked(m, rank, top),
        m.dom().contains(c),
        m.dom().contains(x),
        m[c].state.parent == Some(p),
    ensures
        ({
            let n = parted(m, rank, top, c);
            &&& n[p].state.flags.layout && n[p].state.flags.tree
            &&& n[x].state.flags.paint == m[x].state.flags.paint
            &&& same_but_marks(
                (WidgetView {
                    parent: n[x].state.parent,
                    children: n[x].state.children,
                    ..m[x].state
                }),
                n[x].state,
            )
        }),
{
    reveal(linked);
    reveal(ranked);
    assert(m.dom().contains(p) && m[p] == m[p]);
    lemma_unhung(m, rank, top, c);
    let u = unhung(m, c);
    assert(u.dom().contains(p) && u.dom().contains(x));
    a_mark_arrives(u, rank, top, p, structure(), x);
    a_mark_arrives(u, rank, top, p, structure(), p);
}

/// What waits to be told of the focus to a widget that is gone is dropped; the
/// rest waits as it did, in its order.
pub proof fn what_is_gone_is_told_nothing(
    s: Seq<(WidgetId, bool)>,
    gone: Seq<WidgetId>,
    q: (WidgetId, bool),
)
    ensures
        outside_pairs(Seq::empty(), gone).len() == 0,
        gone.contains(q.0) ==> outside_pairs(s.push(q), gone) == outside_pairs(s, gone),
        !gone.contains(q.0) ==> outside_pairs(s.push(q), gone) == outside_pairs(s, gone).push(q),
{
    assert(s.push(q).drop_last() =~= s);
}

/// Of a widget that is removed, nothing is left that waits to be told of the
/// focus, and what it was in notices that it is gone.
pub proof fn a_removed_widget_is_told_nothing<W>(ui: &Ui<W>, id: WidgetId, p: WidgetId)
    requires
        ui.wf(),
        ui@.nodes.dom().contains(id),
        ui@.nodes[id].state.parent == Some(p),
    ensures
        ({
            let v = removed(ui@, ui.rank(), ui.top(), id);
            &&& v.pending_focus == outside_pairs(ui@.pending_focus, ui.subtree(id))
            &&& v.hover == outside(ui@.hover, ui.subtree(id))
            &&& v.nodes.dom().contains(p) ==> v.nodes[p].state.flags.layout
                && v.nodes[p].state.flags.tree
        }),
{
    ui.tree_shape();
    reveal(linked);
    let m = ui@.nodes;
    assert(m.dom().contains(p) && m[p] == m[p]);
    losing_a_child_is_noticed(m, ui.rank(), ui.top(), p, id, p);
}

} // verus!
