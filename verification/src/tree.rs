//! The shape of the widget tree: what makes a map of widgets a forest, the
//! ancestors of a widget and the order in which a subtree is walked.

use vstd::prelude::*;

use crate::arena::{Entry, WidgetId, WidgetView};
use crate::dirty::Dirty;

verus! {

/// The live widgets by id.
pub type Nodes<W> = Map<WidgetId, Entry<W>>;

/// Change what the framework knows about one widget.
pub open spec fn with_state<W>(m: Nodes<W>, id: WidgetId, st: WidgetView) -> Nodes<W> {
    m.insert(id, Entry { widget: m[id].widget, state: st })
}

/// Parents and children name each other, and only live widgets.
#[verifier::opaque]
pub open spec fn linked<W>(m: Nodes<W>) -> bool {
    &&& forall|id: WidgetId, p: WidgetId|
        #![trigger m.dom().contains(id), m[p]]
        m.dom().contains(id) && m[id].state.parent == Some(p) ==> m.dom().contains(p)
            && m[p].state.children.contains(id)
    &&& forall|id: WidgetId, i: int|
        m.dom().contains(id) && 0 <= i < m[id].state.children.len() ==> m.dom().contains(
            #[trigger] m[id].state.children[i],
        ) && m[m[id].state.children[i]].state.parent == Some(id)
    &&& forall|id: WidgetId| #[trigger]
        m.dom().contains(id) ==> m[id].state.children.no_duplicates()
}

/// Every parent ranks above its children, and no rank is above `top`.
#[verifier::opaque]
pub open spec fn ranked<W>(m: Nodes<W>, rank: Map<WidgetId, nat>, top: nat) -> bool {
    forall|id: WidgetId| #[trigger]
        m.dom().contains(id) ==> rank[id] <= top && (m[id].state.parent matches Some(p) ==> rank[id]
            < rank[p])
}

/// The ancestors of `id`, nearest first.
pub open spec fn ancestors<W>(
    m: Nodes<W>,
    rank: Map<WidgetId, nat>,
    top: nat,
    id: WidgetId,
) -> Seq<WidgetId>
    decreases top - rank[id],
{
    match m[id].state.parent {
        Some(p) => if m.dom().contains(p) && rank[id] < rank[p] <= top {
            seq![p] + ancestors(m, rank, top, p)
        } else {
            Seq::empty()
        },
        None => Seq::empty(),
    }
}

/// The widgets under each of `ids`, those included, in pre-order. Only
/// widgets ranked below `bound` count.
pub open spec fn forest<W>(
    m: Nodes<W>,
    rank: Map<WidgetId, nat>,
    ids: Seq<WidgetId>,
    bound: nat,
) -> Seq<WidgetId>
    decreases bound, ids.len(),
{
    if ids.len() == 0 {
        Seq::empty()
    } else {
        let id = ids[0];
        let rest = forest(m, rank, ids.drop_first(), bound);
        if m.dom().contains(id) && rank[id] < bound {
            seq![id] + forest(m, rank, m[id].state.children, rank[id]) + rest
        } else {
            rest
        }
    }
}

/// `id` and everything under it, in pre-order.
pub open spec fn subtree<W>(m: Nodes<W>, rank: Map<WidgetId, nat>, id: WidgetId) -> Seq<WidgetId> {
    forest(m, rank, seq![id], rank[id] + 1)
}

/// Two maps hold the same widgets under the same parents and children.
pub open spec fn same_shape<W>(a: Nodes<W>, b: Nodes<W>) -> bool {
    &&& a.dom() == b.dom()
    &&& forall|id: WidgetId| #[trigger]
        a.dom().contains(id) ==> a[id].state.parent == b[id].state.parent
            && a[id].state.children == b[id].state.children
}

pub proof fn lemma_same_shape<W>(a: Nodes<W>, b: Nodes<W>, rank: Map<WidgetId, nat>, top: nat)
    requires
        same_shape(a, b),
        linked(a),
        ranked(a, rank, top),
    ensures
        linked(b),
        ranked(b, rank, top),
{
    reveal(linked);
    reveal(ranked);
    assert forall|id: WidgetId, p: WidgetId|
        #![trigger b.dom().contains(id), b[p]]
        b.dom().contains(id) && b[id].state.parent == Some(p) implies b.dom().contains(p)
        && b[p].state.children.contains(id) by {
        assert(a.dom().contains(id));
        let _ = a[p];
        assert(a.dom().contains(p));
    }
    assert forall|id: WidgetId, i: int|
        b.dom().contains(id) && 0 <= i < b[id].state.children.len() implies b.dom().contains(
        #[trigger] b[id].state.children[i],
    ) && b[b[id].state.children[i]].state.parent == Some(id) by {
        assert(a.dom().contains(id));
        assert(a.dom().contains(a[id].state.children[i]));
    }
    assert forall|id: WidgetId| #[trigger] b.dom().contains(id) implies b[id].state.children.no_duplicates() by {
        assert(a.dom().contains(id));
    }
    assert forall|id: WidgetId| #[trigger] b.dom().contains(id) implies rank[id] <= top && (
    b[id].state.parent matches Some(p) ==> rank[id] < rank[p]) by {
        assert(a.dom().contains(id));
    }
}

/// The ancestors of a widget are live, ranked above it and distinct, and
/// each is the parent of the one before.
pub proof fn lemma_ancestors<W>(m: Nodes<W>, rank: Map<WidgetId, nat>, top: nat, id: WidgetId)
    requires
        linked(m),
        ranked(m, rank, top),
        m.dom().contains(id),
    ensures
        forall|i: int|
            #![trigger ancestors(m, rank, top, id)[i]]
            0 <= i < ancestors(m, rank, top, id).len() ==> m.dom().contains(
                ancestors(m, rank, top, id)[i],
            ) && rank[id] < rank[ancestors(m, rank, top, id)[i]],
        ancestors(m, rank, top, id).no_duplicates(),
        !ancestors(m, rank, top, id).contains(id),
        m[id].state.parent matches Some(p) ==> m.dom().contains(p) && ancestors(m, rank, top, id)
            == seq![p] + ancestors(m, rank, top, p),
        m[id].state.parent is None ==> ancestors(m, rank, top, id).len() == 0,
    decreases top - rank[id],
{
    reveal(linked);
    reveal(ranked);
    if let Some(p) = m[id].state.parent {
        let _ = m[p];
        assert(m.dom().contains(p));
        lemma_ancestors(m, rank, top, p);
        let tail = ancestors(m, rank, top, p);
        let all = ancestors(m, rank, top, id);
        assert(all =~= seq![p] + tail);
        assert forall|i: int| 0 <= i < all.len() implies m.dom().contains(#[trigger] all[i])
            && rank[id] < rank[all[i]] by {
            if i > 0 {
                assert(all[i] == tail[i - 1]);
            }
        }
        assert forall|i: int, j: int| 0 <= i < j < all.len() implies all[i] != all[j] by {
            if i == 0 {
                assert(all[j] == tail[j - 1]);
                assert(tail.contains(tail[j - 1]));
            } else {
                assert(all[i] == tail[i - 1] && all[j] == tail[j - 1]);
            }
        }
    }
}

pub proof fn lemma_forest_same<W>(
    a: Nodes<W>,
    b: Nodes<W>,
    rank: Map<WidgetId, nat>,
    ids: Seq<WidgetId>,
    bound: nat,
)
    requires
        same_shape(a, b),
    ensures
        forest(a, rank, ids, bound) == forest(b, rank, ids, bound),
    decreases bound, ids.len(),
{
    if ids.len() > 0 {
        lemma_forest_same(a, b, rank, ids.drop_first(), bound);
        let id = ids[0];
        if a.dom().contains(id) && rank[id] < bound {
            lemma_forest_same(a, b, rank, a[id].state.children, rank[id]);
        }
    }
}

pub proof fn lemma_forest_concat<W>(
    m: Nodes<W>,
    rank: Map<WidgetId, nat>,
    a: Seq<WidgetId>,
    b: Seq<WidgetId>,
    bound: nat,
)
    ensures
        forest(m, rank, a + b, bound) == forest(m, rank, a, bound) + forest(m, rank, b, bound),
    decreases a.len(),
{
    if a.len() == 0 {
        assert(a + b =~= b);
        assert(forest(m, rank, a, bound) + forest(m, rank, b, bound) =~= forest(m, rank, b, bound));
    } else {
        assert((a + b).drop_first() =~= a.drop_first() + b);
        lemma_forest_concat(m, rank, a.drop_first(), b, bound);
        assert(forest(m, rank, a + b, bound) =~= forest(m, rank, a, bound) + forest(
            m,
            rank,
            b,
            bound,
        ));
    }
}

/// A bound above all the ranks does not matter.
pub proof fn lemma_forest_bound<W>(
    m: Nodes<W>,
    rank: Map<WidgetId, nat>,
    ids: Seq<WidgetId>,
    a: nat,
    b: nat,
)
    requires
        forall|i: int| 0 <= i < ids.len() ==> rank[#[trigger] ids[i]] < a && rank[ids[i]] < b,
    ensures
        forest(m, rank, ids, a) == forest(m, rank, ids, b),
    decreases ids.len(),
{
    if ids.len() > 0 {
        let rest = ids.drop_first();
        assert forall|i: int| 0 <= i < rest.len() implies rank[#[trigger] rest[i]] < a
            && rank[rest[i]] < b by {
            assert(rest[i] == ids[i + 1]);
        }
        lemma_forest_bound(m, rank, rest, a, b);
        assert(rank[ids[0]] < a);
    }
}

/// The subtree of `id` is `id` and then the subtrees of its children.
pub proof fn lemma_subtree<W>(m: Nodes<W>, rank: Map<WidgetId, nat>, top: nat, id: WidgetId)
    requires
        linked(m),
        ranked(m, rank, top),
        m.dom().contains(id),
    ensures
        subtree(m, rank, id) == seq![id] + forest(m, rank, m[id].state.children, rank[id]),
{
    reveal(linked);
    reveal(ranked);
    let ids = seq![id];
    assert(ids.drop_first() =~= Seq::<WidgetId>::empty());
    assert(forest(m, rank, ids.drop_first(), rank[id] + 1) =~= Seq::<WidgetId>::empty());
    assert(subtree(m, rank, id) =~= seq![id] + forest(m, rank, m[id].state.children, rank[id]));
}

/// One more child adds that child's subtree to the walk.
pub proof fn lemma_forest_step<W>(
    m: Nodes<W>,
    rank: Map<WidgetId, nat>,
    top: nat,
    id: WidgetId,
    i: int,
)
    requires
        linked(m),
        ranked(m, rank, top),
        m.dom().contains(id),
        0 <= i < m[id].state.children.len(),
    ensures
        forest(m, rank, m[id].state.children.take(i + 1), rank[id]) == forest(
            m,
            rank,
            m[id].state.children.take(i),
            rank[id],
        ) + subtree(m, rank, m[id].state.children[i]),
{
    reveal(linked);
    reveal(ranked);
    let kids = m[id].state.children;
    let c = kids[i];
    assert(m.dom().contains(c) && m[c].state.parent == Some(id));
    assert(kids.take(i + 1) =~= kids.take(i) + seq![c]);
    lemma_forest_concat(m, rank, kids.take(i), seq![c], rank[id]);
    lemma_forest_bound(m, rank, seq![c], rank[c] + 1, rank[id]);
}

/// Everything in a forest is live and ranked below the bound.
pub proof fn lemma_forest_live<W>(
    m: Nodes<W>,
    rank: Map<WidgetId, nat>,
    ids: Seq<WidgetId>,
    bound: nat,
)
    ensures
        forall|i: int|
            #![trigger forest(m, rank, ids, bound)[i]]
            0 <= i < forest(m, rank, ids, bound).len() ==> m.dom().contains(
                forest(m, rank, ids, bound)[i],
            ) && rank[forest(m, rank, ids, bound)[i]] < bound,
    decreases bound, ids.len(),
{
    let all = forest(m, rank, ids, bound);
    if ids.len() > 0 {
        let id = ids[0];
        let rest = forest(m, rank, ids.drop_first(), bound);
        lemma_forest_live(m, rank, ids.drop_first(), bound);
        if m.dom().contains(id) && rank[id] < bound {
            let head = forest(m, rank, m[id].state.children, rank[id]);
            lemma_forest_live(m, rank, m[id].state.children, rank[id]);
            assert(all =~= seq![id] + head + rest);
            assert forall|i: int| 0 <= i < all.len() implies m.dom().contains(#[trigger] all[i])
                && rank[all[i]] < bound by {
                if i == 0 {
                } else if i <= head.len() {
                    assert(all[i] == head[i - 1]);
                } else {
                    assert(all[i] == rest[i - 1 - head.len()]);
                }
            }
        } else {
            assert(all == rest);
        }
    }
}

// ---------------------------------------------------------------------
// marking
// ---------------------------------------------------------------------

/// A widget's state with `flags` added; a layout mark also drops the
/// memoized measurement.
#[verifier::opaque]
pub open spec fn flagged(st: WidgetView, flags: Dirty, layout: bool) -> WidgetView {
    WidgetView { flags: st.flags.with(flags), measured: st.measured && !layout, ..st }
}

/// How many of `chain`, from its start, do not carry all of `sub` yet.
pub open spec fn climb<W>(m: Nodes<W>, chain: Seq<WidgetId>, sub: Dirty) -> nat
    decreases chain.len(),
{
    if chain.len() == 0 || m[chain[0]].state.flags.covers(sub) {
        0
    } else {
        1 + climb(m, chain.drop_first(), sub)
    }
}

/// What `x` is like after `flags` were added to `id` and their trail to the
/// first `k` widgets of `chain`.
pub open spec fn lit_entry<W>(
    m: Nodes<W>,
    chain: Seq<WidgetId>,
    k: int,
    id: WidgetId,
    flags: Dirty,
    x: WidgetId,
) -> Entry<W> {
    if x == id {
        Entry { widget: m[x].widget, state: flagged(m[x].state, flags, flags.layout) }
    } else if chain.take(k).contains(x) {
        Entry { widget: m[x].widget, state: flagged(m[x].state, flags.trail(), flags.layout) }
    } else {
        m[x]
    }
}

/// The map after `flags` were added to `id` and their trail to the first
/// `k` widgets of `chain`.
pub open spec fn lit<W>(
    m: Nodes<W>,
    chain: Seq<WidgetId>,
    k: int,
    id: WidgetId,
    flags: Dirty,
) -> Nodes<W> {
    Map::new(
        |x: WidgetId| m.dom().contains(x),
        |x: WidgetId| lit_entry(m, chain, k, id, flags, x),
    )
}

/// The map after `id` was marked with `flags`: the trail runs up the
/// ancestors to the first one that already carries all of it.
pub open spec fn marked<W>(
    m: Nodes<W>,
    rank: Map<WidgetId, nat>,
    top: nat,
    id: WidgetId,
    flags: Dirty,
) -> Nodes<W> {
    if m.dom().contains(id) {
        let chain = ancestors(m, rank, top, id);
        lit(m, chain, climb(m, chain, flags.trail()) as int, id, flags)
    } else {
        m
    }
}

pub proof fn lemma_climb_bound<W>(m: Nodes<W>, chain: Seq<WidgetId>, sub: Dirty)
    ensures
        climb(m, chain, sub) <= chain.len(),
        climb(m, chain, sub) < chain.len() ==> m[chain[climb(
            m,
            chain,
            sub,
        ) as int]].state.flags.covers(sub),
    decreases chain.len(),
{
    if chain.len() > 0 && !m[chain[0]].state.flags.covers(sub) {
        lemma_climb_bound(m, chain.drop_first(), sub);
        let k = climb(m, chain.drop_first(), sub) as int;
        if k + 1 < chain.len() {
            assert(chain.drop_first()[k] == chain[k + 1]);
        }
    }
}

pub proof fn lemma_marked_shape<W>(
    m: Nodes<W>,
    rank: Map<WidgetId, nat>,
    top: nat,
    id: WidgetId,
    flags: Dirty,
)
    ensures
        same_shape(m, marked(m, rank, top, id, flags)),
{
    reveal(flagged);
    assert(m.dom() =~= marked(m, rank, top, id, flags).dom());
}

/// Whether the paint pass looks into a widget.
pub open spec fn paints(st: WidgetView) -> bool {
    st.flags.paint || st.flags.sub_paint
}

/// Whether the tree pass looks into a widget.
pub open spec fn restructures(st: WidgetView) -> bool {
    st.flags.tree || st.flags.sub_tree
}

/// Whatever a pass has to do in a widget, it is led there from the root:
/// the parent of a widget that a pass looks into is looked into as well.
#[verifier::opaque]
pub open spec fn trail<W>(m: Nodes<W>) -> bool {
    forall|id: WidgetId| #[trigger]
        m.dom().contains(id) ==> (m[id].state.parent matches Some(p) ==> (paints(m[id].state)
            ==> paints(m[p].state)) && (restructures(m[id].state) ==> restructures(m[p].state)))
}

/// The trail holds but perhaps from `hole` to its parent.
#[verifier::opaque]
pub open spec fn trail_but<W>(m: Nodes<W>, hole: WidgetId) -> bool {
    forall|id: WidgetId| #[trigger]
        m.dom().contains(id) && id != hole ==> (m[id].state.parent matches Some(p) ==> (paints(
            m[id].state,
        ) ==> paints(m[p].state)) && (restructures(m[id].state) ==> restructures(m[p].state)))
}

/// Marking a widget keeps the trail: nothing the mark lit is out of the
/// passes' reach.
pub proof fn mark_keeps_the_trail<W>(
    m: Nodes<W>,
    rank: Map<WidgetId, nat>,
    top: nat,
    id: WidgetId,
    flags: Dirty,
)
    requires
        linked(m),
        ranked(m, rank, top),
        trail(m),
        !flags.sub_paint && !flags.sub_tree,
    ensures
        trail(marked(m, rank, top, id, flags)),
{
    reveal(trail);
    reveal(trail_but);
    let n = marked(m, rank, top, id, flags);
    lemma_marked_shape(m, rank, top, id, flags);
    assert forall|x: WidgetId| #[trigger] n.dom().contains(x) implies (
    n[x].state.parent matches Some(p) ==> (paints(n[x].state) ==> paints(n[p].state)) && (
    restructures(n[x].state) ==> restructures(n[p].state))) by {
        assert(m.dom().contains(x));
        if m.dom().contains(id) {
            lemma_mark_edge(m, rank, top, id, flags, x);
        }
    }
}

/// One edge of the tree after a mark: what held of it before still holds,
/// and at the marked widget it holds of whatever the mark lit.
proof fn lemma_mark_edge<W>(
    m: Nodes<W>,
    rank: Map<WidgetId, nat>,
    top: nat,
    id: WidgetId,
    flags: Dirty,
    x: WidgetId,
)
    requires
        linked(m),
        ranked(m, rank, top),
        m.dom().contains(id),
        m.dom().contains(x),
        !flags.sub_paint && !flags.sub_tree,
    ensures
        ({
            let n = marked(m, rank, top, id, flags);
            n[x].state.parent matches Some(p) ==> {
                &&& paints(n[x].state) ==> paints(n[p].state) || (paints(m[x].state) && !paints(
                    m[p].state,
                ) && !(x == id && flags.paint))
                &&& restructures(n[x].state) ==> restructures(n[p].state) || (restructures(
                    m[x].state,
                ) && !restructures(m[p].state) && !(x == id && flags.tree))
            }
        }),
{
    reveal(linked);
    reveal(ranked);
    reveal(flagged);
    let n = marked(m, rank, top, id, flags);
    let chain = ancestors(m, rank, top, id);
    let sub = flags.trail();
    let k = climb(m, chain, sub) as int;
    lemma_climb_bound(m, chain, sub);
    lemma_ancestors(m, rank, top, id);
    let part = chain.take(k);
    if let Some(p) = n[x].state.parent {
        let _ = m[p];
        assert(m.dom().contains(p));
        assert(n[p].state.flags.covers(m[p].state.flags));
        if x == id {
            assert(p == chain[0]);
            if k > 0 {
                assert(part[0] == p);
                assert(part.contains(p));
            }
        } else if part.contains(x) {
            let j = choose|j: int| 0 <= j < part.len() && part[j] == x;
            assert(chain[j] == x);
            lemma_chain_link(m, rank, top, id, j);
            assert(j + 1 < chain.len() && chain[j + 1] == p);
            if j + 1 < k {
                assert(part[j + 1] == p);
                assert(part.contains(p));
            }
        }
    }
}

/// Marking a widget keeps the trail where it held, and marking the widget
/// at the hole in all three ways closes it.
pub proof fn lemma_mark_trail_but<W>(
    m: Nodes<W>,
    rank: Map<WidgetId, nat>,
    top: nat,
    id: WidgetId,
    flags: Dirty,
    hole: WidgetId,
)
    requires
        linked(m),
        ranked(m, rank, top),
        trail_but(m, hole),
        !flags.sub_paint && !flags.sub_tree,
    ensures
        trail_but(marked(m, rank, top, id, flags), hole),
        id == hole && flags.paint && flags.tree ==> trail(marked(m, rank, top, id, flags)),
{
    reveal(trail);
    reveal(trail_but);
    let n = marked(m, rank, top, id, flags);
    lemma_marked_shape(m, rank, top, id, flags);
    assert forall|x: WidgetId| #[trigger]
        n.dom().contains(x) && (x != hole || (id == hole && flags.paint && flags.tree)) implies (
    n[x].state.parent matches Some(p) ==> (paints(n[x].state) ==> paints(n[p].state)) && (
    restructures(n[x].state) ==> restructures(n[p].state))) by {
        assert(m.dom().contains(x));
        if m.dom().contains(id) {
            lemma_mark_edge(m, rank, top, id, flags, x);
        }
    }
}

/// Each ancestor but the first is the parent of the one before it.
pub proof fn lemma_chain_link<W>(
    m: Nodes<W>,
    rank: Map<WidgetId, nat>,
    top: nat,
    id: WidgetId,
    j: int,
)
    requires
        linked(m),
        ranked(m, rank, top),
        m.dom().contains(id),
        0 <= j < ancestors(m, rank, top, id).len(),
    ensures
        m[ancestors(m, rank, top, id)[j]].state.parent == (if j + 1 < ancestors(
            m,
            rank,
            top,
            id,
        ).len() {
            Some(ancestors(m, rank, top, id)[j + 1])
        } else {
            None
        }),
    decreases top - rank[id],
{
    reveal(linked);
    reveal(ranked);
    lemma_ancestors(m, rank, top, id);
    let p = m[id].state.parent->0;
    let _ = m[p];
    lemma_ancestors(m, rank, top, p);
    let tail = ancestors(m, rank, top, p);
    if j > 0 {
        lemma_chain_link(m, rank, top, p, j - 1);
    } else {
        if tail.len() > 0 {
            assert(m[p].state.parent is Some);
        }
    }
}

pub proof fn lemma_not_lit_yet(chain: Seq<WidgetId>, k: int, id: WidgetId)
    requires
        0 <= k < chain.len(),
        chain.no_duplicates(),
        !chain.contains(id),
    ensures
        !chain.take(k).contains(chain[k]),
        chain[k] != id,
{
    if chain.take(k).contains(chain[k]) {
        let j = choose|j: int| 0 <= j < k && chain.take(k)[j] == chain[k];
        assert(chain[j] == chain[k]);
    }
    assert(chain.contains(chain[k]));
}

pub proof fn lemma_lit_start<W>(m: Nodes<W>, chain: Seq<WidgetId>, id: WidgetId, flags: Dirty)
    requires
        m.dom().contains(id),
    ensures
        lit(m, chain, 0, id, flags) == with_state(
            m,
            id,
            flagged(m[id].state, flags, flags.layout),
        ),
{
    assert(lit(m, chain, 0, id, flags) =~= with_state(
        m,
        id,
        flagged(m[id].state, flags, flags.layout),
    ));
}

pub proof fn lemma_lit_step<W>(m: Nodes<W>, chain: Seq<WidgetId>, k: int, id: WidgetId, flags: Dirty)
    requires
        0 <= k < chain.len(),
        chain.no_duplicates(),
        !chain.contains(id),
        m.dom().contains(chain[k]),
    ensures
        lit(m, chain, k + 1, id, flags) == with_state(
            lit(m, chain, k, id, flags),
            chain[k],
            flagged(m[chain[k]].state, flags.trail(), flags.layout),
        ),
{
    lemma_not_lit_yet(chain, k, id);
    let a = lit(m, chain, k + 1, id, flags);
    let b = with_state(
        lit(m, chain, k, id, flags),
        chain[k],
        flagged(m[chain[k]].state, flags.trail(), flags.layout),
    );
    let more = chain.take(k + 1);
    let less = chain.take(k);
    assert forall|x: WidgetId| #[trigger] more.contains(x) <==> less.contains(x) || x == chain[k] by {
        if more.contains(x) {
            let j = choose|j: int| 0 <= j < more.len() && more[j] == x;
            if j < k {
                assert(less[j] == x);
            }
        }
        if less.contains(x) {
            let j = choose|j: int| 0 <= j < less.len() && less[j] == x;
            assert(more[j] == x);
        }
        if x == chain[k] {
            assert(more[k] == x);
        }
    }
    assert(a.dom() =~= b.dom());
    assert forall|x: WidgetId| a.dom().contains(x) implies #[trigger] a[x] == b[x] by {
        if x == id {
            assert(!more.contains(x));
        } else if x == chain[k] {
            assert(more.contains(x));
        } else {
            assert(more.contains(x) == less.contains(x));
        }
    }
    assert(a =~= b);
}

// ---------------------------------------------------------------------
// taking widgets out
// ---------------------------------------------------------------------

/// `s` without every occurrence of `x`.
pub open spec fn dropped(s: Seq<WidgetId>, x: WidgetId) -> Seq<WidgetId>
    decreases s.len(),
{
    if s.len() == 0 {
        Seq::empty()
    } else if s.last() == x {
        dropped(s.drop_last(), x)
    } else {
        dropped(s.drop_last(), x).push(s.last())
    }
}

pub proof fn lemma_dropped(s: Seq<WidgetId>, x: WidgetId)
    ensures
        forall|y: WidgetId| #[trigger] dropped(s, x).contains(y) <==> s.contains(y) && y != x,
        s.no_duplicates() ==> dropped(s, x).no_duplicates(),
    decreases s.len(),
{
    if s.len() > 0 {
        let head = s.drop_last();
        lemma_dropped(head, x);
        let d = dropped(head, x);
        assert forall|y: WidgetId| #[trigger] dropped(s, x).contains(y) <==> s.contains(y) && y != x by {
            if s.contains(y) && y != x {
                let i = choose|i: int| 0 <= i < s.len() && s[i] == y;
                if i < head.len() {
                    assert(head[i] == y);
                    assert(d.contains(y));
                    let k = choose|k: int| 0 <= k < d.len() && d[k] == y;
                    assert(dropped(s, x)[k] == y);
                } else {
                    assert(dropped(s, x)[d.len() as int] == y);
                }
            }
            if dropped(s, x).contains(y) {
                let k = choose|k: int| 0 <= k < dropped(s, x).len() && dropped(s, x)[k] == y;
                if k < d.len() {
                    assert(d.contains(d[k]));
                    let i = choose|i: int| 0 <= i < head.len() && head[i] == y;
                    assert(s[i] == y);
                } else {
                    assert(s[s.len() - 1] == y);
                }
            }
        }
        if s.no_duplicates() {
            assert(head.no_duplicates());
            assert(!head.contains(s.last())) by {
                if head.contains(s.last()) {
                    let i = choose|i: int| 0 <= i < head.len() && head[i] == s.last();
                    assert(s[i] == s[s.len() - 1]);
                }
            }
            if s.last() != x {
                assert(!d.contains(s.last()));
            }
        }
    }
}

/// The map after `child` was taken from under its parent.
pub open spec fn unhung<W>(m: Nodes<W>, child: WidgetId) -> Nodes<W> {
    match m[child].state.parent {
        Some(p) => {
            let n = with_state(
                m,
                p,
                WidgetView { children: dropped(m[p].state.children, child), ..m[p].state },
            );
            with_state(n, child, WidgetView { parent: None, ..n[child].state })
        },
        None => m,
    }
}

pub proof fn lemma_unhung<W>(m: Nodes<W>, rank: Map<WidgetId, nat>, top: nat, child: WidgetId)
    requires
        linked(m),
        ranked(m, rank, top),
        m.dom().contains(child),
    ensures
        linked(unhung(m, child)),
        ranked(unhung(m, child), rank, top),
        unhung(m, child).dom() == m.dom(),
        trail(m) ==> trail(unhung(m, child)),
{
    reveal(linked);
    reveal(ranked);
    reveal(trail);
    if let Some(p) = m[child].state.parent {
        let _ = m[p];
        assert(m.dom().contains(p));
        assert(p != child);
        let n = unhung(m, child);
        let kids = m[p].state.children;
        lemma_dropped(kids, child);
        assert(n.dom() =~= m.dom());
        assert forall|id: WidgetId, q: WidgetId|
            #![trigger n.dom().contains(id), n[q]]
            n.dom().contains(id) && n[id].state.parent == Some(q) implies n.dom().contains(q)
            && n[q].state.children.contains(id) by {
            let _ = m[q];
            assert(m.dom().contains(id));
            assert(m[q].state.children.contains(id));
        }
        assert forall|id: WidgetId, i: int|
            n.dom().contains(id) && 0 <= i < n[id].state.children.len() implies n.dom().contains(
            #[trigger] n[id].state.children[i],
        ) && n[n[id].state.children[i]].state.parent == Some(id) by {
            let c = n[id].state.children[i];
            assert(n[id].state.children.contains(c));
            assert(m[id].state.children.contains(c));
            let k = choose|k: int| 0 <= k < m[id].state.children.len() && m[id].state.children[k] == c;
            assert(m.dom().contains(m[id].state.children[k]));
            assert(c != child);
        }
        assert forall|id: WidgetId| #[trigger] n.dom().contains(id) implies n[id].state.children.no_duplicates() by {
            assert(m.dom().contains(id));
        }
        assert forall|id: WidgetId| #[trigger] n.dom().contains(id) implies rank[id] <= top && (
        n[id].state.parent matches Some(q) ==> rank[id] < rank[q]) by {
            assert(m.dom().contains(id));
        }
        if trail(m) {
            assert forall|id: WidgetId| #[trigger] n.dom().contains(id) implies (
            n[id].state.parent matches Some(q) ==> (paints(n[id].state) ==> paints(n[q].state)) && (
            restructures(n[id].state) ==> restructures(n[q].state))) by {
                assert(m.dom().contains(id));
                if let Some(q) = m[id].state.parent {
                    let _ = m[q];
                    assert(m.dom().contains(q));
                }
            }
        }
    }
}

/// The same children in another order hang together as before.
pub proof fn lemma_reordered<W>(
    m: Nodes<W>,
    rank: Map<WidgetId, nat>,
    top: nat,
    p: WidgetId,
    kids: Seq<WidgetId>,
)
    requires
        linked(m),
        ranked(m, rank, top),
        m.dom().contains(p),
        kids.no_duplicates(),
        forall|x: WidgetId| #[trigger] kids.contains(x) <==> m[p].state.children.contains(x),
    ensures
        ({
            let n = with_state(m, p, WidgetView { children: kids, ..m[p].state });
            &&& linked(n)
            &&& ranked(n, rank, top)
            &&& n.dom() == m.dom()
            &&& trail(m) ==> trail(n)
        }),
{
    reveal(linked);
    reveal(ranked);
    reveal(trail);
    let n = with_state(m, p, WidgetView { children: kids, ..m[p].state });
    assert(n.dom() =~= m.dom());
    assert forall|id: WidgetId, q: WidgetId|
        #![trigger n.dom().contains(id), n[q]]
        n.dom().contains(id) && n[id].state.parent == Some(q) implies n.dom().contains(q)
        && n[q].state.children.contains(id) by {
        let _ = m[q];
        assert(m.dom().contains(id));
    }
    assert forall|id: WidgetId, i: int|
        n.dom().contains(id) && 0 <= i < n[id].state.children.len() implies n.dom().contains(
        #[trigger] n[id].state.children[i],
    ) && n[n[id].state.children[i]].state.parent == Some(id) by {
        let c = n[id].state.children[i];
        assert(n[id].state.children.contains(c));
        assert(m[id].state.children.contains(c));
        let k = choose|k: int| 0 <= k < m[id].state.children.len() && m[id].state.children[k] == c;
        assert(m.dom().contains(m[id].state.children[k]));
    }
    assert forall|id: WidgetId| #[trigger] n.dom().contains(id) implies n[id].state.children.no_duplicates() by {
        assert(m.dom().contains(id));
    }
    assert forall|id: WidgetId| #[trigger] n.dom().contains(id) implies rank[id] <= top && (
    n[id].state.parent matches Some(q) ==> rank[id] < rank[q]) by {
        assert(m.dom().contains(id));
    }
    if trail(m) {
        assert forall|id: WidgetId| #[trigger] n.dom().contains(id) implies (
        n[id].state.parent matches Some(q) ==> (paints(n[id].state) ==> paints(n[q].state)) && (
        restructures(n[id].state) ==> restructures(n[q].state))) by {
            assert(m.dom().contains(id));
        }
    }
}

/// A subtree is closed: it holds the children of whatever it holds, and the
/// parent of whatever it holds but its own roots.
pub proof fn lemma_forest_closed<W>(
    m: Nodes<W>,
    rank: Map<WidgetId, nat>,
    top: nat,
    ids: Seq<WidgetId>,
    bound: nat,
)
    requires
        linked(m),
        ranked(m, rank, top),
        forall|i: int| 0 <= i < ids.len() ==> m.dom().contains(#[trigger] ids[i]) && rank[ids[i]] < bound,
    ensures
        forall|i: int| 0 <= i < ids.len() ==> forest(m, rank, ids, bound).contains(#[trigger] ids[i]),
        forall|x: WidgetId, i: int|
            forest(m, rank, ids, bound).contains(x) && 0 <= i < m[x].state.children.len()
                ==> forest(m, rank, ids, bound).contains(#[trigger] m[x].state.children[i]),
        forall|x: WidgetId| #[trigger]
            forest(m, rank, ids, bound).contains(x) ==> ids.contains(x) || (m[x].state.parent matches Some(p)
                && forest(m, rank, ids, bound).contains(p)),
    decreases bound, ids.len(),
{
    if ids.len() > 0 {
        let id = ids[0];
        let tail = ids.drop_first();
        let kids = m[id].state.children;
        let all = forest(m, rank, ids, bound);
        let head = forest(m, rank, kids, rank[id]);
        let rest = forest(m, rank, tail, bound);
        assert(m.dom().contains(ids[0]));
        assert forall|i: int| 0 <= i < tail.len() implies m.dom().contains(#[trigger] tail[i])
            && rank[tail[i]] < bound by {
            assert(tail[i] == ids[i + 1]);
        }
        assert forall|i: int| 0 <= i < kids.len() implies m.dom().contains(#[trigger] kids[i])
            && rank[kids[i]] < rank[id] && m[kids[i]].state.parent == Some(id) by {
            reveal(linked);
            reveal(ranked);
            assert(m.dom().contains(m[id].state.children[i]));
        }
        lemma_forest_closed(m, rank, top, tail, bound);
        lemma_forest_closed(m, rank, top, kids, rank[id]);
        assert(all =~= seq![id] + head + rest);
        assert forall|x: WidgetId| #[trigger] all.contains(x) <==> x == id || head.contains(x)
            || rest.contains(x) by {
            if all.contains(x) {
                let k = choose|k: int| 0 <= k < all.len() && all[k] == x;
                if k == 0 {
                } else if k <= head.len() {
                    assert(head[k - 1] == x);
                } else {
                    assert(rest[k - 1 - head.len()] == x);
                }
            }
            if x == id {
                assert(all[0] == x);
            }
            if head.contains(x) {
                let k = choose|k: int| 0 <= k < head.len() && head[k] == x;
                assert(all[k + 1] == x);
            }
            if rest.contains(x) {
                let k = choose|k: int| 0 <= k < rest.len() && rest[k] == x;
                assert(all[k + 1 + head.len()] == x);
            }
        }
        assert forall|i: int| 0 <= i < ids.len() implies all.contains(#[trigger] ids[i]) by {
            if i > 0 {
                assert(ids[i] == tail[i - 1]);
            }
        }
        assert forall|x: WidgetId, i: int|
            all.contains(x) && 0 <= i < m[x].state.children.len() implies all.contains(
            #[trigger] m[x].state.children[i],
        ) by {
            if x == id {
                assert(head.contains(kids[i]));
            }
        }
        assert forall|x: WidgetId| #[trigger] all.contains(x) implies ids.contains(x) || (
        m[x].state.parent matches Some(p) && all.contains(p)) by {
            if x == id {
                assert(ids[0] == x);
            } else if head.contains(x) {
                if kids.contains(x) {
                    let k = choose|k: int| 0 <= k < kids.len() && kids[k] == x;
                    assert(m[kids[k]].state.parent == Some(id));
                }
            } else {
                if tail.contains(x) {
                    let k = choose|k: int| 0 <= k < tail.len() && tail[k] == x;
                    assert(ids[k + 1] == x);
                }
            }
        }
    }
}

/// A tree stays a tree when a whole detached subtree goes.
pub proof fn lemma_cut<W>(m: Nodes<W>, rank: Map<WidgetId, nat>, top: nat, id: WidgetId)
    requires
        linked(m),
        ranked(m, rank, top),
        m.dom().contains(id),
        m[id].state.parent is None,
    ensures
        linked(m.remove_keys(subtree(m, rank, id).to_set())),
        ranked(m.remove_keys(subtree(m, rank, id).to_set()), rank, top),
        trail(m) ==> trail(m.remove_keys(subtree(m, rank, id).to_set())),
{
    reveal(linked);
    reveal(ranked);
    reveal(trail);
    let gone = subtree(m, rank, id);
    let n = m.remove_keys(gone.to_set());
    lemma_forest_closed(m, rank, top, seq![id], rank[id] + 1);
    assert forall|x: WidgetId, q: WidgetId|
        #![trigger n.dom().contains(x), n[q]]
        n.dom().contains(x) && n[x].state.parent == Some(q) implies n.dom().contains(q)
        && n[q].state.children.contains(x) by {
        let _ = m[q];
        assert(m.dom().contains(x));
        if gone.contains(q) {
            let k = choose|k: int| 0 <= k < m[q].state.children.len() && m[q].state.children[k] == x;
            assert(gone.contains(m[q].state.children[k]));
        }
    }
    assert forall|x: WidgetId, i: int|
        n.dom().contains(x) && 0 <= i < n[x].state.children.len() implies n.dom().contains(
        #[trigger] n[x].state.children[i],
    ) && n[n[x].state.children[i]].state.parent == Some(x) by {
        let c = m[x].state.children[i];
        assert(m.dom().contains(m[x].state.children[i]));
        if gone.contains(c) {
            assert(c != id);
            assert(!seq![id].contains(c));
        }
    }
}

/// Changing the children of a widget that ranks at least as high as the
/// bound leaves a walk below the bound as it was.
pub proof fn lemma_forest_below<W>(
    a: Nodes<W>,
    b: Nodes<W>,
    rank: Map<WidgetId, nat>,
    ids: Seq<WidgetId>,
    bound: nat,
    above: WidgetId,
)
    requires
        rank[above] >= bound,
        a.dom() == b.dom(),
        forall|x: WidgetId| #[trigger]
            a.dom().contains(x) && x != above ==> a[x].state.children == b[x].state.children,
    ensures
        forest(a, rank, ids, bound) == forest(b, rank, ids, bound),
    decreases bound, ids.len(),
{
    if ids.len() > 0 {
        lemma_forest_below(a, b, rank, ids.drop_first(), bound, above);
        let id = ids[0];
        if a.dom().contains(id) && rank[id] < bound {
            lemma_forest_below(a, b, rank, a[id].state.children, rank[id], above);
        }
    }
}

/// The widgets under each of `ids`, those included, that a walk meets when
/// it does not enter a widget that is out of its slot.
pub open spec fn present<W>(
    m: Nodes<W>,
    rank: Map<WidgetId, nat>,
    ids: Seq<WidgetId>,
    bound: nat,
) -> Seq<WidgetId>
    decreases bound, ids.len(),
{
    if ids.len() == 0 {
        Seq::empty()
    } else {
        let id = ids[0];
        let rest = present(m, rank, ids.drop_first(), bound);
        if m.dom().contains(id) && rank[id] < bound && m[id].widget is Some {
            seq![id] + present(m, rank, m[id].state.children, rank[id]) + rest
        } else {
            rest
        }
    }
}

pub proof fn lemma_present_concat<W>(
    m: Nodes<W>,
    rank: Map<WidgetId, nat>,
    a: Seq<WidgetId>,
    b: Seq<WidgetId>,
    bound: nat,
)
    ensures
        present(m, rank, a + b, bound) == present(m, rank, a, bound) + present(m, rank, b, bound),
    decreases a.len(),
{
    if a.len() == 0 {
        assert(a + b =~= b);
        assert(present(m, rank, a, bound) + present(m, rank, b, bound) =~= present(m, rank, b, bound));
    } else {
        assert((a + b).drop_first() =~= a.drop_first() + b);
        lemma_present_concat(m, rank, a.drop_first(), b, bound);
        assert(present(m, rank, a + b, bound) =~= present(m, rank, a, bound) + present(
            m,
            rank,
            b,
            bound,
        ));
    }
}

/// The walk of one widget, and of one more child.
pub proof fn lemma_present_step<W>(
    m: Nodes<W>,
    rank: Map<WidgetId, nat>,
    top: nat,
    id: WidgetId,
    i: int,
)
    requires
        linked(m),
        ranked(m, rank, top),
        m.dom().contains(id),
        0 <= i < m[id].state.children.len(),
    ensures
        present(m, rank, m[id].state.children.take(i + 1), rank[id]) == present(
            m,
            rank,
            m[id].state.children.take(i),
            rank[id],
        ) + present(
            m,
            rank,
            seq![m[id].state.children[i]],
            rank[m[id].state.children[i]] + 1,
        ),
        rank[m[id].state.children[i]] < rank[id],
        m.dom().contains(m[id].state.children[i]),
{
    reveal(linked);
    reveal(ranked);
    let kids = m[id].state.children;
    let c = kids[i];
    assert(m.dom().contains(m[id].state.children[i]));
    assert(m[c].state.parent == Some(id));
    assert(kids.take(i + 1) =~= kids.take(i) + seq![c]);
    lemma_present_concat(m, rank, kids.take(i), seq![c], rank[id]);
    lemma_present_one(m, rank, c, rank[c] + 1);
    lemma_present_one(m, rank, c, rank[id]);
}

pub proof fn lemma_present_one<W>(m: Nodes<W>, rank: Map<WidgetId, nat>, id: WidgetId, bound: nat)
    requires
        rank[id] < bound,
    ensures
        present(m, rank, seq![id], bound) == (if m.dom().contains(id) && m[id].widget is Some {
            seq![id] + present(m, rank, m[id].state.children, rank[id])
        } else {
            Seq::empty()
        }),
{
    let ids = seq![id];
    assert(ids.drop_first() =~= Seq::<WidgetId>::empty());
    assert(present(m, rank, ids.drop_first(), bound) =~= Seq::<WidgetId>::empty());
    assert(present(m, rank, ids, bound) =~= (if m.dom().contains(id) && m[id].widget is Some {
        seq![id] + present(m, rank, m[id].state.children, rank[id])
    } else {
        Seq::empty()
    }));
}

// ---------------------------------------------------------------------
// who is under whom
// ---------------------------------------------------------------------

/// Whether `x` is `c` or has it among its ancestors.
pub open spec fn under<W>(
    m: Nodes<W>,
    rank: Map<WidgetId, nat>,
    top: nat,
    x: WidgetId,
    c: WidgetId,
) -> bool {
    x == c || ancestors(m, rank, top, x).contains(c)
}

/// Whatever a walk meets is under one of the widgets it set out from.
pub proof fn lemma_forest_root<W>(
    m: Nodes<W>,
    rank: Map<WidgetId, nat>,
    top: nat,
    ids: Seq<WidgetId>,
    bound: nat,
    x: WidgetId,
)
    requires
        linked(m),
        ranked(m, rank, top),
        forall|i: int| 0 <= i < ids.len() ==> m.dom().contains(#[trigger] ids[i]) && rank[ids[i]] < bound,
        forest(m, rank, ids, bound).contains(x),
    ensures
        exists|j: int| 0 <= j < ids.len() && under(m, rank, top, x, #[trigger] ids[j]),
    decreases top - rank[x],
{
    lemma_forest_closed(m, rank, top, ids, bound);
    lemma_forest_live(m, rank, ids, bound);
    let all = forest(m, rank, ids, bound);
    let at = choose|at: int| 0 <= at < all.len() && all[at] == x;
    assert(m.dom().contains(all[at]));
    if ids.contains(x) {
        let j = choose|j: int| 0 <= j < ids.len() && ids[j] == x;
        assert(under(m, rank, top, x, ids[j]));
    } else {
        let p = m[x].state.parent->0;
        lemma_ancestors(m, rank, top, x);
        assert(ancestors(m, rank, top, x)[0] == p);
        assert(rank[p] <= top) by {
            reveal(ranked);
        }
        lemma_forest_root(m, rank, top, ids, bound, p);
        let j = choose|j: int| 0 <= j < ids.len() && under(m, rank, top, p, #[trigger] ids[j]);
        lemma_under_step(m, rank, top, x, p, ids[j]);
        assert(under(m, rank, top, x, ids[j]));
    }
}

/// What is above a widget's parent is above the widget.
pub proof fn lemma_under_step<W>(
    m: Nodes<W>,
    rank: Map<WidgetId, nat>,
    top: nat,
    x: WidgetId,
    p: WidgetId,
    c: WidgetId,
)
    requires
        linked(m),
        ranked(m, rank, top),
        m.dom().contains(x),
        m[x].state.parent == Some(p),
        under(m, rank, top, p, c),
    ensures
        ancestors(m, rank, top, x).contains(c),
{
    lemma_ancestors(m, rank, top, x);
    let up = ancestors(m, rank, top, x);
    let tail = ancestors(m, rank, top, p);
    if p == c {
        assert(up[0] == c);
    } else {
        let k = choose|k: int| 0 <= k < tail.len() && tail[k] == c;
        assert(up[k + 1] == c);
    }
}

/// No widget is under two different children of the same parent, nor under
/// two different roots.
pub proof fn lemma_one_branch<W>(
    m: Nodes<W>,
    rank: Map<WidgetId, nat>,
    top: nat,
    x: WidgetId,
    a: WidgetId,
    b: WidgetId,
)
    requires
        linked(m),
        ranked(m, rank, top),
        m.dom().contains(x),
        under(m, rank, top, x, a),
        under(m, rank, top, x, b),
        m[a].state.parent == m[b].state.parent,
    ensures
        a == b,
{
    lemma_ancestors(m, rank, top, x);
    let up = ancestors(m, rank, top, x);
    let chain = seq![x] + up;
    assert forall|i: int| 0 <= i < chain.len() implies #[trigger] m[chain[i]].state.parent == (if i
        + 1 < chain.len() {
        Some(chain[i + 1])
    } else {
        None
    }) by {
        if i > 0 {
            lemma_chain_link(m, rank, top, x, i - 1);
            assert(chain[i] == up[i - 1]);
        } else {
            if up.len() > 0 {
                assert(chain[1] == up[0]);
            }
        }
    }
    assert forall|i: int, j: int| 0 <= i < j < chain.len() implies chain[i] != chain[j] by {
        if i == 0 {
            assert(chain[j] == up[j - 1]);
            assert(up.contains(up[j - 1]));
        } else {
            assert(chain[i] == up[i - 1] && chain[j] == up[j - 1]);
        }
    }
    let i = if x == a {
        0
    } else {
        1 + choose|k: int| 0 <= k < up.len() && up[k] == a
    };
    let j = if x == b {
        0
    } else {
        1 + choose|k: int| 0 <= k < up.len() && up[k] == b
    };
    assert(chain[i] == a && chain[j] == b);
    assert(m[chain[i]].state.parent == m[chain[j]].state.parent);
    if i < j {
        assert(chain[i + 1] == chain[j + 1]);
    } else if j < i {
        assert(chain[j + 1] == chain[i + 1]);
    }
}

/// A walk that sets out from distinct siblings meets no widget twice.
pub proof fn lemma_subtree_distinct<W>(
    m: Nodes<W>,
    rank: Map<WidgetId, nat>,
    top: nat,
    ids: Seq<WidgetId>,
    bound: nat,
)
    requires
        linked(m),
        ranked(m, rank, top),
        forall|i: int| 0 <= i < ids.len() ==> m.dom().contains(#[trigger] ids[i]) && rank[ids[i]] < bound,
        forall|i: int, j: int|
            0 <= i < ids.len() && 0 <= j < ids.len() ==> m[#[trigger] ids[i]].state.parent == m[#[trigger] ids[j]].state.parent,
        ids.no_duplicates(),
    ensures
        forest(m, rank, ids, bound).no_duplicates(),
    decreases bound, ids.len(),
{
    if ids.len() > 0 {
        let id = ids[0];
        let tail = ids.drop_first();
        let kids = m[id].state.children;
        let all = forest(m, rank, ids, bound);
        let head = forest(m, rank, kids, rank[id]);
        let rest = forest(m, rank, tail, bound);
        assert(m.dom().contains(ids[0]));
        assert forall|i: int| 0 <= i < tail.len() implies m.dom().contains(#[trigger] tail[i])
            && rank[tail[i]] < bound by {
            assert(tail[i] == ids[i + 1]);
        }
        assert forall|i: int, j: int|
            0 <= i < tail.len() && 0 <= j < tail.len() implies m[#[trigger] tail[i]].state.parent
            == m[#[trigger] tail[j]].state.parent by {
            assert(tail[i] == ids[i + 1] && tail[j] == ids[j + 1]);
        }
        assert forall|i: int| 0 <= i < kids.len() implies m.dom().contains(#[trigger] kids[i])
            && rank[kids[i]] < rank[id] && m[kids[i]].state.parent == Some(id) by {
            reveal(linked);
            reveal(ranked);
            assert(m.dom().contains(m[id].state.children[i]));
        }
        assert(kids.no_duplicates()) by {
            reveal(linked);
        }
        lemma_subtree_distinct(m, rank, top, tail, bound);
        lemma_subtree_distinct(m, rank, top, kids, rank[id]);
        lemma_forest_live(m, rank, kids, rank[id]);
        lemma_forest_live(m, rank, tail, bound);
        assert(all =~= seq![id] + head + rest);
        assert forall|x: WidgetId| #[trigger] rest.contains(x) implies x != id && !head.contains(x) by {
            lemma_forest_root(m, rank, top, tail, bound, x);
            let j = choose|j: int| 0 <= j < tail.len() && under(m, rank, top, x, #[trigger] tail[j]);
            assert(tail[j] == ids[j + 1]);
            let at = choose|at: int| 0 <= at < rest.len() && rest[at] == x;
            assert(m.dom().contains(rest[at]));
            if x == id {
                assert(under(m, rank, top, x, id));
                lemma_one_branch(m, rank, top, x, id, tail[j]);
            } else if head.contains(x) {
                lemma_forest_root(m, rank, top, kids, rank[id], x);
                let k = choose|k: int| 0 <= k < kids.len() && under(m, rank, top, x, #[trigger] kids[k]);
                lemma_under_up(m, rank, top, x, kids[k], id);
                lemma_one_branch(m, rank, top, x, id, tail[j]);
            }
        }
        assert forall|i: int, j: int| 0 <= i < j < all.len() implies all[i] != all[j] by {
            let h = 1 + head.len();
            if j >= h {
                assert(all[j] == rest[j - h]);
                assert(rest.contains(rest[j - h]));
                if i >= h {
                    assert(all[i] == rest[i - h]);
                } else if i > 0 {
                    assert(all[i] == head[i - 1]);
                    assert(head.contains(head[i - 1]));
                }
            } else {
                assert(all[j] == head[j - 1]);
                if i > 0 {
                    assert(all[i] == head[i - 1]);
                } else {
                    assert(rank[head[j - 1]] < rank[id]);
                }
            }
        }
    }
}

/// What is under a child is under its parent.
pub proof fn lemma_under_up<W>(
    m: Nodes<W>,
    rank: Map<WidgetId, nat>,
    top: nat,
    x: WidgetId,
    c: WidgetId,
    p: WidgetId,
)
    requires
        linked(m),
        ranked(m, rank, top),
        m.dom().contains(x),
        under(m, rank, top, x, c),
        m[c].state.parent == Some(p),
    ensures
        ancestors(m, rank, top, x).contains(p),
    decreases top - rank[x],
{
    lemma_ancestors(m, rank, top, x);
    let up = ancestors(m, rank, top, x);
    if x == c {
        assert(up[0] == p);
    } else {
        let k = choose|k: int| 0 <= k < up.len() && up[k] == c;
        lemma_chain_link(m, rank, top, x, k);
        assert(up[k + 1] == p);
    }
}

} // verus!
