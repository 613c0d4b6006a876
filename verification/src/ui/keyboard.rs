//! What may be relied on when the focus moves: what Tab reaches and in which
//! order, who has the focus and who is told, and who gets a key.

use vstd::prelude::*;

use crate::arena::{WidgetId, WidgetView};
use crate::dirty::Dirty;
use crate::event::Handled;
use crate::tree::{flagged, lemma_same_shape, linked, ranked, same_shape, with_state, Nodes};
use crate::ui::arrange::in_flow;
use crate::ui::focus::{
    first_true, focus_dropped, focus_moved, place, refocused, revealed, stage_after, step,
    tab_order, KeyStage,
};
use crate::ui::growth::a_mark_arrives;
use crate::ui::{Op, Ui, UiView};

verus! {

// ---------------------------------------------------------------------
// what Tab reaches
// ---------------------------------------------------------------------

/// Whether a run of widgets leads from one to the next by children, all of
/// them shown.
pub open spec fn shown_path<W>(m: Nodes<W>, path: Seq<WidgetId>) -> bool {
    &&& path.len() > 0
    &&& forall|i: int|
        0 <= i < path.len() ==> m.dom().contains(#[trigger] path[i]) && m[path[i]].state.visible
    &&& forall|i: int, j: int|
        0 <= i && j == i + 1 && j < path.len() ==> m[#[trigger] path[i]].state.children.contains(
            #[trigger] path[j],
        )
}

/// Whether a shown path leads from one widget to another.
pub open spec fn leads_to<W>(m: Nodes<W>, from: WidgetId, x: WidgetId) -> bool {
    exists|path: Seq<WidgetId>| #[trigger]
        shown_path(m, path) && path[0] == from && path.last() == x
}

proof fn lemma_lead_self<W>(m: Nodes<W>, x: WidgetId)
    requires
        m.dom().contains(x),
        m[x].state.visible,
    ensures
        leads_to(m, x, x),
{
    let path = seq![x];
    assert(shown_path(m, path) && path[0] == x && path.last() == x);
}

proof fn lemma_lead_on<W>(m: Nodes<W>, id: WidgetId, k: int, x: WidgetId)
    requires
        m.dom().contains(id),
        m[id].state.visible,
        0 <= k < m[id].state.children.len(),
        leads_to(m, m[id].state.children[k], x),
    ensures
        leads_to(m, id, x),
{
    let c = m[id].state.children[k];
    let rest = choose|path: Seq<WidgetId>| #[trigger]
        shown_path(m, path) && path[0] == c && path.last() == x;
    let path = seq![id] + rest;
    assert forall|i: int| 0 <= i < path.len() implies m.dom().contains(#[trigger] path[i])
        && m[path[i]].state.visible by {
        if i > 0 {
            assert(path[i] == rest[i - 1]);
        }
    }
    assert forall|i: int, j: int| 0 <= i && j == i + 1 && j < path.len() implies m[#[trigger] path[i]].state.children.contains(
        #[trigger] path[j],
    ) by {
        assert(path[j] == rest[j - 1]);
        if i > 0 {
            assert(path[i] == rest[i - 1]);
        } else {
            assert(m[id].state.children.contains(c));
        }
    }
    assert(path.last() == rest.last());
    assert(shown_path(m, path) && path[0] == id && path.last() == x);
}

proof fn lemma_tab_order_in<W>(
    m: Nodes<W>,
    rank: Map<WidgetId, nat>,
    ids: Seq<WidgetId>,
    bound: nat,
    x: WidgetId,
)
    requires
        tab_order(m, rank, ids, bound).contains(x),
    ensures
        m.dom().contains(x) && m[x].state.focusable && m[x].state.visible,
        exists|i: int| 0 <= i < ids.len() && leads_to(m, #[trigger] ids[i], x),
    decreases bound, ids.len(),
{
    let all = tab_order(m, rank, ids, bound);
    let k = choose|k: int| 0 <= k < all.len() && all[k] == x;
    if ids.len() > 0 {
        let id = ids[0];
        let rest = tab_order(m, rank, ids.drop_first(), bound);
        if m.dom().contains(id) && rank[id] < bound && m[id].state.visible {
            let own = if m[id].state.focusable {
                seq![id]
            } else {
                Seq::empty()
            };
            let kids = m[id].state.children;
            let below = tab_order(m, rank, kids, rank[id]);
            assert(all == own + below + rest);
            if k < own.len() {
                lemma_lead_self(m, id);
                assert(leads_to(m, ids[0], x));
            } else if k < own.len() + below.len() {
                assert(below[k - own.len()] == x);
                lemma_tab_order_in(m, rank, kids, rank[id], x);
                let i = choose|i: int| 0 <= i < kids.len() && leads_to(m, #[trigger] kids[i], x);
                lemma_lead_on(m, id, i, x);
                assert(leads_to(m, ids[0], x));
            } else {
                assert(rest[k - own.len() - below.len()] == x);
                lemma_tab_order_in(m, rank, ids.drop_first(), bound, x);
                let i = choose|i: int|
                    0 <= i < ids.drop_first().len() && leads_to(
                        m,
                        #[trigger] ids.drop_first()[i],
                        x,
                    );
                assert(ids[i + 1] == ids.drop_first()[i]);
            }
        } else {
            lemma_tab_order_in(m, rank, ids.drop_first(), bound, x);
            let i = choose|i: int|
                0 <= i < ids.drop_first().len() && leads_to(m, #[trigger] ids.drop_first()[i], x);
            assert(ids[i + 1] == ids.drop_first()[i]);
        }
    }
}

proof fn lemma_tab_order_all<W>(
    m: Nodes<W>,
    rank: Map<WidgetId, nat>,
    top: nat,
    ids: Seq<WidgetId>,
    bound: nat,
    i: int,
    path: Seq<WidgetId>,
)
    requires
        linked(m),
        ranked(m, rank, top),
        0 <= i < ids.len(),
        rank[ids[i]] < bound,
        shown_path(m, path),
        path[0] == ids[i],
        m[path.last()].state.focusable,
    ensures
        tab_order(m, rank, ids, bound).contains(path.last()),
    decreases bound, ids.len(),
{
    let x = path.last();
    let id = ids[0];
    let all = tab_order(m, rank, ids, bound);
    let rest = tab_order(m, rank, ids.drop_first(), bound);
    if i > 0 {
        assert(ids.drop_first()[i - 1] == ids[i]);
        lemma_tab_order_all(m, rank, top, ids.drop_first(), bound, i - 1, path);
        let k = choose|k: int| 0 <= k < rest.len() && rest[k] == x;
        assert(all[all.len() - rest.len() + k] == x);
    } else {
        let own = if m[id].state.focusable {
            seq![id]
        } else {
            Seq::empty()
        };
        let kids = m[id].state.children;
        let below = tab_order(m, rank, kids, rank[id]);
        assert(m.dom().contains(path[0]));
        assert(all == own + below + rest);
        if path.len() == 1 {
            assert(all[0] == x);
        } else {
            assert(m[path[0]].state.children.contains(path[1]));
            let k = choose|k: int| 0 <= k < kids.len() && kids[k] == path[1];
            crate::ui::lemma_child(m, rank, top, id, k);
            let tail = path.drop_first();
            assert forall|a: int| 0 <= a < tail.len() implies m.dom().contains(#[trigger] tail[a])
                && m[tail[a]].state.visible by {
                assert(tail[a] == path[a + 1]);
            }
            assert forall|a: int, b: int| 0 <= a && b == a + 1 && b < tail.len() implies m[#[trigger] tail[a]].state.children.contains(
                #[trigger] tail[b],
            ) by {
                assert(tail[a] == path[a + 1] && tail[b] == path[b + 1]);
            }
            assert(tail.last() == x);
            lemma_tab_order_all(m, rank, top, kids, rank[id], k, tail);
            let j = choose|j: int| 0 <= j < below.len() && below[j] == x;
            assert(all[own.len() + j] == x);
        }
    }
}

/// Tab reaches exactly the widgets that can have the focus and that a shown
/// path leads to from the root: nothing that is hidden, and nothing below
/// what is hidden.
pub proof fn tab_reaches_what_is_shown_and_focusable<W>(ui: &Ui<W>, root: WidgetId, x: WidgetId)
    requires
        ui.wf(),
        ui@.root == Some(root),
        ui@.nodes.dom().contains(root),
    ensures
        ui.tabs().contains(x) <==> leads_to(ui@.nodes, root, x) && ui@.nodes[x].state.focusable,
{
    ui.tree_shape();
    let m = ui@.nodes;
    let rank = ui.rank();
    let ids = seq![root];
    if ui.tabs().contains(x) {
        lemma_tab_order_in(m, rank, ids, rank[root] + 1, x);
        let i = choose|i: int| 0 <= i < ids.len() && leads_to(m, #[trigger] ids[i], x);
        assert(ids[i] == root);
    }
    if leads_to(m, root, x) && m[x].state.focusable {
        let path = choose|path: Seq<WidgetId>| #[trigger]
            shown_path(m, path) && path[0] == root && path.last() == x;
        lemma_tab_order_all(m, rank, ui.top(), ids, rank[root] + 1, 0, path);
    }
}

/// The widgets that Tab reaches below some, one run behind the other.
pub open spec fn runs_of<W>(m: Nodes<W>, rank: Map<WidgetId, nat>, ids: Seq<WidgetId>) -> Seq<
    WidgetId,
>
    decreases ids.len(),
{
    if ids.len() == 0 {
        Seq::empty()
    } else {
        run_of(m, rank, ids[0]) + runs_of(m, rank, ids.drop_first())
    }
}

/// The widgets that Tab reaches at and below one.
pub open spec fn run_of<W>(m: Nodes<W>, rank: Map<WidgetId, nat>, id: WidgetId) -> Seq<WidgetId> {
    tab_order(m, rank, seq![id], rank[id] + 1)
}

proof fn lemma_runs<W>(m: Nodes<W>, rank: Map<WidgetId, nat>, ids: Seq<WidgetId>, bound: nat)
    requires
        forall|i: int|
            0 <= i < ids.len() ==> m.dom().contains(#[trigger] ids[i]) && rank[ids[i]] < bound,
    ensures
        tab_order(m, rank, ids, bound) == runs_of(m, rank, ids),
    decreases ids.len(),
{
    if ids.len() > 0 {
        let rest = ids.drop_first();
        assert forall|i: int| 0 <= i < rest.len() implies m.dom().contains(#[trigger] rest[i])
            && rank[rest[i]] < bound by {
            assert(rest[i] == ids[i + 1]);
        }
        lemma_runs(m, rank, rest, bound);
        let id = ids[0];
        lemma_run(m, rank, id);
        assert(tab_order(m, rank, ids, bound) =~= run_of(m, rank, id) + runs_of(m, rank, rest));
    }
}

proof fn lemma_run<W>(m: Nodes<W>, rank: Map<WidgetId, nat>, id: WidgetId)
    requires
        m.dom().contains(id),
    ensures
        run_of(m, rank, id) == (if m[id].state.visible {
            (if m[id].state.focusable {
                seq![id]
            } else {
                Seq::empty()
            }) + tab_order(m, rank, m[id].state.children, rank[id])
        } else {
            Seq::empty()
        }),
{
    let one = seq![id];
    assert(one.drop_first() =~= Seq::<WidgetId>::empty());
    assert(tab_order(m, rank, one.drop_first(), rank[id] + 1) =~= Seq::<WidgetId>::empty());
    assert(run_of(m, rank, id) =~= (if m[id].state.visible {
        (if m[id].state.focusable {
            seq![id]
        } else {
            Seq::empty()
        }) + tab_order(m, rank, m[id].state.children, rank[id])
    } else {
        Seq::empty()
    }));
}

/// Tab goes in the order of the tree: a widget comes before what is in it,
/// and what is in it comes child by child.
pub proof fn tab_goes_in_tree_order<W>(ui: &Ui<W>, id: WidgetId)
    requires
        ui.wf(),
        ui@.nodes.dom().contains(id),
    ensures
        ({
            let m = ui@.nodes;
            let rank = ui.rank();
            let st = m[id].state;
            &&& !st.visible ==> run_of(m, rank, id).len() == 0
            &&& st.visible && st.focusable ==> run_of(m, rank, id) == seq![id] + runs_of(
                m,
                rank,
                st.children,
            )
            &&& st.visible && !st.focusable ==> run_of(m, rank, id) == runs_of(
                m,
                rank,
                st.children,
            )
            &&& ui@.root == Some(id) ==> ui.tabs() == run_of(m, rank, id)
        }),
{
    ui.tree_shape();
    let m = ui@.nodes;
    let rank = ui.rank();
    let kids = m[id].state.children;
    assert forall|i: int| 0 <= i < kids.len() implies m.dom().contains(#[trigger] kids[i])
        && rank[kids[i]] < rank[id] by {
        crate::ui::lemma_child(m, rank, ui.top(), id, i);
    }
    lemma_runs(m, rank, kids, rank[id]);
    lemma_run(m, rank, id);
    if m[id].state.visible && !m[id].state.focusable {
        assert(run_of(m, rank, id) =~= runs_of(m, rank, kids));
    }
}

/// Tab leads to the one behind and Shift and Tab to the one before, and both
/// come round at the ends; without a focus they start at the ends.
pub proof fn tab_leads_on_and_comes_round(i: int, n: int)
    requires
        0 <= i < n,
    ensures
        step(Some(i), n, false) == (if i + 1 < n {
            i + 1
        } else {
            0
        }),
        step(Some(i), n, true) == (if i > 0 {
            i - 1
        } else {
            n - 1
        }),
        step(None, n, false) == 0,
        step(None, n, true) == n - 1,
{
    if i + 1 < n {
        vstd::arithmetic::div_mod::lemma_small_mod((i + 1) as nat, n as nat);
    } else {
        vstd::arithmetic::div_mod::lemma_mod_self_0(n);
    }
    if i > 0 {
        vstd::arithmetic::div_mod::lemma_mod_add_multiples_vanish(i - 1, n);
        vstd::arithmetic::div_mod::lemma_small_mod((i - 1) as nat, n as nat);
        assert((i + n - 1) == n + (i - 1));
    } else {
        vstd::arithmetic::div_mod::lemma_small_mod((n - 1) as nat, n as nat);
    }
}

/// A widget is found where it first stands.
pub proof fn a_place_is_the_first(s: Seq<WidgetId>, x: WidgetId)
    ensures
        match place(s, x) {
            Some(i) => 0 <= i < s.len() && s[i] == x && forall|j: int|
                0 <= j < i ==> #[trigger] s[j] != x,
            None => !s.contains(x),
        },
    decreases s.len(),
{
    if s.len() > 0 && s[0] != x {
        let rest = s.drop_first();
        a_place_is_the_first(rest, x);
        match place(rest, x) {
            Some(i) => {
                assert forall|j: int| 0 <= j < i + 1 implies #[trigger] s[j] != x by {
                    if j > 0 {
                        assert(rest[j - 1] == s[j]);
                    }
                }
            },
            None => {
                if s.contains(x) {
                    let j = choose|j: int| 0 <= j < s.len() && s[j] == x;
                    assert(rest[j - 1] == x);
                }
            },
        }
    }
}

// ---------------------------------------------------------------------
// who has the focus
// ---------------------------------------------------------------------

/// Whether exactly the widget that has the focus knows it.
pub open spec fn one_focus<W>(v: UiView<W>) -> bool {
    forall|x: WidgetId| #[trigger]
        v.nodes.dom().contains(x) ==> (v.nodes[x].state.focused <==> v.focused == Some(x))
}

proof fn lemma_refocused<W>(
    m: Nodes<W>,
    rank: Map<WidgetId, nat>,
    top: nat,
    id: WidgetId,
    on: bool,
    x: WidgetId,
)
    requires
        m.dom().contains(x),
    ensures
        refocused(m, rank, top, id, on).dom() == m.dom(),
        refocused(m, rank, top, id, on)[x].state.focused == (if x == id {
            on
        } else {
            m[x].state.focused
        }),
        x == id ==> refocused(m, rank, top, id, on)[x].state.flags.paint,
        refocused(m, rank, top, id, on)[x].state.visible == m[x].state.visible,
{
    reveal(flagged);
    assert(refocused(m, rank, top, id, on).dom() =~= m.dom());
}

/// Moving the focus gives it to one widget and takes it from the one that had
/// it. Both are painted, and both are told, the one that lost it first; where
/// the widget has the focus already, nothing happens.
pub proof fn the_focus_is_in_one_place<W>(
    v: UiView<W>,
    rank: Map<WidgetId, nat>,
    top: nat,
    id: WidgetId,
)
    requires
        v.nodes.dom().contains(id),
        one_focus(v),
        v.focused matches Some(f) ==> v.nodes.dom().contains(f),
    ensures
        ({
            let w = focus_moved(v, rank, top, id);
            &&& w.focused == Some(id)
            &&& one_focus(w)
            &&& w.nodes.dom() == v.nodes.dom()
            &&& v.focused == Some(id) ==> w == v
            &&& v.focused is None ==> w.pending_focus == v.pending_focus.push((id, true))
            &&& v.focused is Some && v.focused != Some(id) ==> w.pending_focus
                == v.pending_focus.push((v.focused->0, false)).push((id, true))
                && w.nodes[v.focused->0].state.flags.paint
            &&& v.focused != Some(id) ==> w.nodes[id].state.flags.paint
        }),
{
    let w = focus_moved(v, rank, top, id);
    if v.focused != Some(id) {
        let n = match v.focused {
            Some(f) => refocused(v.nodes, rank, top, f, false),
            None => v.nodes,
        };
        if let Some(f) = v.focused {
            lemma_refocused(v.nodes, rank, top, f, false, f);
            lemma_refocused(v.nodes, rank, top, f, false, id);
            assert(n[f].state.flags.paint);
            assert(w.nodes[f].state.flags.paint) by {
                reveal(flagged);
            }
        }
        lemma_refocused(n, rank, top, id, true, id);
        assert forall|x: WidgetId| #[trigger] w.nodes.dom().contains(x) implies (
        w.nodes[x].state.focused <==> w.focused == Some(x)) by {
            assert(v.nodes.dom().contains(x));
            if let Some(f) = v.focused {
                lemma_refocused(v.nodes, rank, top, f, false, x);
            }
            lemma_refocused(n, rank, top, id, true, x);
        }
    }
}

/// Dropping the focus leaves no widget with it, and tells the one that had
/// it.
pub proof fn a_dropped_focus_is_nowhere<W>(v: UiView<W>, rank: Map<WidgetId, nat>, top: nat)
    requires
        one_focus(v),
    ensures
        ({
            let w = focus_dropped(v, rank, top);
            &&& w.focused is None
            &&& one_focus(w)
            &&& v.focused matches Some(f) ==> w.pending_focus == v.pending_focus.push((f, false))
            &&& v.focused is None ==> w == v
        }),
{
    let w = focus_dropped(v, rank, top);
    if let Some(f) = v.focused {
        assert(w.nodes.dom() =~= v.nodes.dom()) by {
            reveal(flagged);
        }
        assert forall|x: WidgetId| #[trigger] w.nodes.dom().contains(x) implies (
        w.nodes[x].state.focused <==> w.focused == Some(x)) by {
            assert(v.nodes.dom().contains(x));
            lemma_refocused(v.nodes, rank, top, f, false, x);
        }
    }
}

/// What is told of the focus is true when it is told: of what waits, the
/// first that is still the case; what comes before it is not any more.
pub proof fn only_what_is_true_is_told(
    pending: Seq<(WidgetId, bool)>,
    focused: Option<WidgetId>,
)
    ensures
        ({
            let k = first_true(pending, focused) as int;
            &&& k <= pending.len()
            &&& k < pending.len() ==> ((focused == Some(pending[k].0)) <==> pending[k].1)
            &&& forall|j: int|
                0 <= j < k ==> ((focused == Some((#[trigger] pending[j]).0)) <==> !pending[j].1)
        }),
    decreases pending.len(),
{
    if pending.len() > 0 && (focused == Some(pending[0].0)) != pending[0].1 {
        let rest = pending.drop_first();
        only_what_is_true_is_told(rest, focused);
        let k = first_true(pending, focused) as int;
        assert forall|j: int| 0 <= j < k implies ((focused == Some((#[trigger] pending[j]).0))
            <==> !pending[j].1) by {
            if j > 0 {
                assert(pending[j] == rest[j - 1]);
            }
        }
        if k < pending.len() {
            assert(pending[k] == rest[k - 1]);
        }
    }
}

/// A key goes to the widget first, then as text where it has any, then to the
/// app's own handlers, and moves the focus only where it is Tab and nobody
/// took it; whoever takes it ends it.
pub proof fn a_key_goes_on_until_it_is_taken(has_text: bool, tab: bool, stage: KeyStage)
    ensures
        stage_after(KeyStage::Down, Handled::No, true, tab) is Text,
        stage_after(KeyStage::Down, Handled::No, false, tab) is Handlers,
        stage_after(KeyStage::Text, Handled::No, has_text, tab) is Handlers,
        stage_after(KeyStage::Handlers, Handled::No, has_text, true) is Traverse,
        stage_after(KeyStage::Handlers, Handled::No, has_text, false) is Done,
        stage_after(stage, Handled::Yes, has_text, tab) is Done,
{
}

// ---------------------------------------------------------------------
// showing and hiding
// ---------------------------------------------------------------------

/// Showing or hiding a widget sets just that of just that widget. Where it is
/// on screen, the server is told once, and only of what it does not know
/// yet: doing it twice is like doing it once.
pub proof fn showing_tells_what_is_new<W>(
    v: UiView<W>,
    rank: Map<WidgetId, nat>,
    top: nat,
    id: WidgetId,
    visible: bool,
    x: WidgetId,
)
    requires
        v.nodes.dom().contains(id),
        v.nodes.dom().contains(x),
    ensures
        ({
            let w = revealed(v, rank, top, id, visible);
            &&& w.nodes.dom() == v.nodes.dom()
            &&& w.nodes[id].state.visible == visible
            &&& x != id ==> w.nodes[x].state.visible == v.nodes[x].state.visible
            &&& w.nodes[x].state.children == v.nodes[x].state.children
            &&& w.focused == v.focused && w.root == v.root
            &&& v.nodes[id].state.node is None ==> w.ops == v.ops
            &&& v.nodes[id].state.node matches Some(node) ==> {
                let known = match v.nodes[id].state.sent_visible {
                    Some(s) => s,
                    None => true,
                };
                &&& known == visible ==> w.ops == v.ops
                &&& known != visible ==> w.ops == v.ops.push(Op::SetVisible { node, visible })
                &&& revealed(w, rank, top, id, visible).ops == w.ops
            }
        }),
{
    reveal(flagged);
    let w = revealed(v, rank, top, id, visible);
    assert(w.nodes.dom() =~= v.nodes.dom());
}

/// What takes part in a layout: every child that is not folded away, in
/// order.
pub proof fn a_folded_child_takes_no_room<W>(m: Nodes<W>, ids: Seq<WidgetId>, x: WidgetId)
    ensures
        in_flow(m, Seq::empty()).len() == 0,
        m.dom().contains(x) && m[x].state.collapsed ==> in_flow(m, ids.push(x)) == in_flow(m, ids),
        !(m.dom().contains(x) && m[x].state.collapsed) ==> in_flow(m, ids.push(x)) == in_flow(
            m,
            ids,
        ).push(x),
{
    assert(ids.push(x).drop_last() =~= ids);
}

/// A widget that is not on screen yet is marked when it is shown or hidden, so
/// that the tree pass comes to it; of one that is on screen the server knows
/// at once.
pub proof fn what_is_not_on_screen_is_marked<W>(
    v: UiView<W>,
    rank: Map<WidgetId, nat>,
    top: nat,
    id: WidgetId,
    visible: bool,
)
    requires
        v.nodes.dom().contains(id),
        linked(v.nodes),
        ranked(v.nodes, rank, top),
    ensures
        ({
            let w = revealed(v, rank, top, id, visible);
            &&& v.nodes[id].state.node is None ==> w.nodes[id].state.flags.tree
            &&& v.nodes[id].state.node is Some ==> (w.nodes[id].state.sent_visible != Some(false))
                == visible && w.nodes[id].state.flags == v.nodes[id].state.flags
            &&& w.nodes[id].widget == v.nodes[id].widget
            &&& w.nodes[id].state.node == v.nodes[id].state.node
            &&& w.nodes[id].state.focused == v.nodes[id].state.focused
        }),
{
    let m = v.nodes;
    let a = with_state(m, id, WidgetView { visible, ..m[id].state });
    if m[id].state.node is None {
        assert(a.dom() =~= m.dom());
        assert(same_shape(m, a));
        lemma_same_shape(m, a, rank, top);
        a_mark_arrives(a, rank, top, id, Dirty { tree: true, ..Dirty::clean() }, id);
    }
}

} // verus!
