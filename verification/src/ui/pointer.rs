//! What may be relied on when the pointer moves: whom it is over, and who is
//! told.

use vstd::prelude::*;

use crate::arena::WidgetId;
use crate::tree::{linked, ranked, Nodes};
use crate::ui::hover::{chain_from, topmost};
use crate::ui::{outside, Ui};

verus! {

/// Whether the pointer enters a widget: it is live, shown, and the pointer is
/// in its box.
pub open spec fn enters<W>(m: Nodes<W>, hit: Seq<WidgetId>, c: WidgetId) -> bool {
    m.dom().contains(c) && m[c].state.visible && hit.contains(c)
}

/// Whether `c` is the child of `id` that the pointer goes on to: it enters
/// it, and no child on top of it.
pub open spec fn goes_on<W>(m: Nodes<W>, hit: Seq<WidgetId>, id: WidgetId, c: WidgetId) -> bool {
    exists|k: int|
        {
            &&& 0 <= k < m[id].state.children.len()
            &&& #[trigger] m[id].state.children[k] == c
            &&& enters(m, hit, c)
            &&& forall|j: int|
                k < j < m[id].state.children.len() ==> !enters(
                    m,
                    hit,
                    #[trigger] m[id].state.children[j],
                )
        }
}

/// Whether the pointer enters no child of `id`.
pub open spec fn stops_at<W>(m: Nodes<W>, hit: Seq<WidgetId>, id: WidgetId) -> bool {
    forall|j: int|
        0 <= j < m[id].state.children.len() ==> !enters(m, hit, #[trigger] m[id].state.children[j])
}

/// Whether a chain leads from each widget to the topmost of its children that
/// the pointer enters, and on until there is none.
pub open spec fn leads_down<W>(m: Nodes<W>, hit: Seq<WidgetId>, chain: Seq<WidgetId>) -> bool {
    &&& forall|i: int, j: int|
        0 <= i && j == i + 1 && j < chain.len() ==> goes_on(
            m,
            hit,
            #[trigger] chain[i],
            #[trigger] chain[j],
        )
    &&& chain.len() > 0 ==> stops_at(m, hit, chain.last())
}

proof fn lemma_topmost_child<W>(m: Nodes<W>, kids: Seq<WidgetId>, hit: Seq<WidgetId>)
    ensures
        match topmost(m, kids, hit) {
            Some(c) => exists|k: int|
                {
                    &&& 0 <= k < kids.len() && #[trigger] kids[k] == c && enters(m, hit, c)
                    &&& forall|j: int| k < j < kids.len() ==> !enters(m, hit, #[trigger] kids[j])
                },
            None => forall|j: int| 0 <= j < kids.len() ==> !enters(m, hit, #[trigger] kids[j]),
        },
    decreases kids.len(),
{
    if kids.len() > 0 {
        let head = kids.drop_last();
        let n = head.len() as int;
        lemma_topmost_child(m, head, hit);
        assert(kids[n] == kids.last());
        assert(forall|j: int| 0 <= j < n ==> #[trigger] kids[j] == head[j]);
        if !enters(m, hit, kids.last()) {
            match topmost(m, head, hit) {
                Some(c) => {
                    let k = choose|k: int|
                        {
                            &&& 0 <= k < head.len() && #[trigger] head[k] == c && enters(m, hit, c)
                            &&& forall|j: int|
                                k < j < head.len() ==> !enters(m, hit, #[trigger] head[j])
                        };
                    assert(kids[k] == c);
                    assert forall|j: int| k < j < kids.len() implies !enters(
                        m,
                        hit,
                        #[trigger] kids[j],
                    ) by {
                        if j < n {
                            assert(head[j] == kids[j]);
                        }
                    }
                },
                None => {
                    assert forall|j: int| 0 <= j < kids.len() implies !enters(
                        m,
                        hit,
                        #[trigger] kids[j],
                    ) by {
                        if j < n {
                            assert(head[j] == kids[j]);
                        }
                    }
                },
            }
        }
    }
}

proof fn lemma_leads_down<W>(
    m: Nodes<W>,
    rank: Map<WidgetId, nat>,
    top: nat,
    id: WidgetId,
    hit: Seq<WidgetId>,
)
    requires
        linked(m),
        ranked(m, rank, top),
        m.dom().contains(id),
    ensures
        chain_from(m, rank, id, hit).len() > 0,
        chain_from(m, rank, id, hit)[0] == id,
        leads_down(m, hit, chain_from(m, rank, id, hit)),
    decreases rank[id],
{
    let kids = m[id].state.children;
    let chain = chain_from(m, rank, id, hit);
    lemma_topmost_child(m, kids, hit);
    if let Some(c) = topmost(m, kids, hit) {
        let k = choose|k: int|
            {
                &&& 0 <= k < kids.len() && #[trigger] kids[k] == c && enters(m, hit, c)
                &&& forall|j: int| k < j < kids.len() ==> !enters(m, hit, #[trigger] kids[j])
            };
        assert(m[id].state.children[k] == c);
        assert(goes_on(m, hit, id, c));
        crate::ui::lemma_child(m, rank, top, id, k);
        lemma_leads_down(m, rank, top, c, hit);
        let rest = chain_from(m, rank, c, hit);
        assert(chain =~= seq![id] + rest);
        assert forall|i: int, j: int| 0 <= i && j == i + 1 && j < chain.len() implies goes_on(
            m,
            hit,
            #[trigger] chain[i],
            #[trigger] chain[j],
        ) by {
            assert(chain[j] == rest[j - 1]);
            if i > 0 {
                assert(chain[i] == rest[i - 1]);
            }
        }
        assert(chain.last() == rest.last());
    } else {
        assert(chain =~= seq![id]);
    }
}

/// The pointer is over the root where it is in the root's box, and over
/// nothing otherwise. From each widget it goes on to the topmost child that
/// is shown and whose box it is in, and it stops only where there is none:
/// so it never enters a hidden widget, and a hidden widget hides nothing.
pub proof fn the_pointer_goes_to_the_topmost_shown<W>(ui: &Ui<W>, hit: Seq<WidgetId>)
    requires
        ui.wf(),
    ensures
        ui.chain(hit).len() > 0 <==> (ui@.root matches Some(r) && ui@.nodes.dom().contains(r)
            && hit.contains(r)),
        ui.chain(hit).len() > 0 ==> Some(ui.chain(hit)[0]) == ui@.root,
        leads_down(ui@.nodes, hit, ui.chain(hit)),
        forall|i: int|
            1 <= i < ui.chain(hit).len() ==> ui@.nodes.dom().contains(
                #[trigger] ui.chain(hit)[i],
            ) && ui@.nodes[ui.chain(hit)[i]].state.visible && hit.contains(ui.chain(hit)[i]),
{
    ui.tree_shape();
    let m = ui@.nodes;
    let chain = ui.chain(hit);
    if let Some(r) = ui@.root {
        if m.dom().contains(r) && hit.contains(r) {
            lemma_leads_down(m, ui.rank(), ui.top(), r, hit);
        }
    }
    assert forall|i: int| 1 <= i < chain.len() implies m.dom().contains(#[trigger] chain[i])
        && m[chain[i]].state.visible && hit.contains(chain[i]) by {
        assert(goes_on(m, hit, chain[i - 1], chain[i]));
    }
}

/// Whether `x` stands somewhere before `y`.
pub open spec fn stands_before(s: Seq<WidgetId>, x: WidgetId, y: WidgetId) -> bool {
    exists|a: int, b: int| 0 <= a < b < s.len() && #[trigger] s[a] == x && #[trigger] s[b] == y
}

/// What is in one run and not in another: each of them, in the order it had.
pub proof fn what_is_left_over(s: Seq<WidgetId>, out: Seq<WidgetId>, x: WidgetId)
    ensures
        outside(s, out).contains(x) <==> s.contains(x) && !out.contains(x),
        s.no_duplicates() ==> outside(s, out).no_duplicates(),
        forall|i: int, j: int|
            0 <= i < j < outside(s, out).len() ==> stands_before(
                s,
                #[trigger] outside(s, out)[i],
                #[trigger] outside(s, out)[j],
            ),
    decreases s.len(),
{
    if s.len() > 0 {
        let head = s.drop_last();
        let a = outside(head, out);
        let b = outside(s, out);
        let n = head.len() as int;
        what_is_left_over(head, out, x);
        what_is_left_over(head, out, s.last());
        assert(s[n] == s.last());
        assert(forall|k: int| 0 <= k < n ==> #[trigger] s[k] == head[k]);
        if head.contains(x) {
            let k = choose|k: int| 0 <= k < n && head[k] == x;
            assert(s[k] == x);
        }
        if a.contains(x) {
            let k = choose|k: int| 0 <= k < a.len() && a[k] == x;
            assert(b[k] == x);
        }
        if x == s.last() && !out.contains(x) {
            assert(b[a.len() as int] == x);
        }
        if b.contains(x) {
            let k = choose|k: int| 0 <= k < b.len() && b[k] == x;
            if k < a.len() {
                assert(a[k] == x);
            }
        }
        if s.contains(x) && x != s.last() {
            let k = choose|k: int| 0 <= k < s.len() && s[k] == x;
            assert(head[k] == x);
        }
        if s.no_duplicates() {
            assert(head.no_duplicates());
            if a.contains(s.last()) {
                let k = choose|k: int| 0 <= k < n && head[k] == s.last();
                assert(s[k] == s[n]);
            }
        }
        assert forall|i: int, j: int| 0 <= i < j < b.len() implies stands_before(
            s,
            #[trigger] b[i],
            #[trigger] b[j],
        ) by {
            assert(b[i] == a[i]);
            if j < a.len() {
                assert(b[j] == a[j]);
                assert(stands_before(head, a[i], a[j]));
                let (p, q) = choose|p: int, q: int|
                    0 <= p < q < head.len() && #[trigger] head[p] == a[i] && #[trigger] head[q]
                        == a[j];
                assert(s[p] == b[i] && s[q] == b[j]);
            } else {
                assert(a.contains(a[i]));
                what_is_left_over(head, out, a[i]);
                let p = choose|p: int| 0 <= p < head.len() && head[p] == a[i];
                assert(s[p] == b[i] && s[n] == b[j]);
            }
        }
    }
}

} // verus!
