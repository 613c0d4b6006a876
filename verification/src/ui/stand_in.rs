//! Putting a widget that was built earlier in the place of a stand-in.

use vstd::prelude::*;

use crate::arena::{WidgetId, WidgetView};
use crate::error::Error;
use crate::tree::{
    dropped, flagged, lemma_dropped, lemma_forest_closed, lemma_forest_live, lemma_marked_shape,
    linked, marked, ranked, same_shape, subtree, trail, unhung, with_state, Nodes,
};
use crate::ui::{
    everything, hung, joined, lemma_parted, parted, removed, structure, Ui, UiView,
};

verus! {

/// `s` with `x` right before `y`.
pub open spec fn put_before(s: Seq<WidgetId>, y: WidgetId, x: WidgetId) -> Seq<WidgetId>
    decreases s.len(),
{
    if s.len() == 0 {
        s
    } else if s.last() == y {
        s.drop_last().push(x).push(y)
    } else {
        put_before(s.drop_last(), y, x).push(s.last())
    }
}

/// The tree after the widget `id` was put in the place of `holder`: it is
/// moved under the parent of `holder`, right before it, gets its name if it
/// has none of its own, and then `holder` goes. Moving a widget may change
/// the ranks, from `rank` to `ranks`.
pub open spec fn stood_in<W>(
    ui: UiView<W>,
    rank: Map<WidgetId, nat>,
    top: nat,
    ranks: Map<WidgetId, nat>,
    tops: nat,
    holder: WidgetId,
    id: WidgetId,
) -> UiView<W> {
    let m = ui.nodes;
    let p = m[holder].state.parent->0;
    let a = joined(parted(m, rank, top, id), ranks, tops, p, id);
    let kids = put_before(a[p].state.children.drop_last(), holder, id);
    let b = with_state(a, p, WidgetView { children: kids, ..a[p].state });
    let c = if b[id].state.name is None {
        with_state(b, id, WidgetView { name: b[holder].state.name, ..b[id].state })
    } else {
        b
    };
    removed(UiView { nodes: c, ..ui }, ranks, tops, holder)
}

/// Whether `id` stands where `holder` stood, under its name if it has none
/// of its own, and `holder` is gone: `m` is the tree before, `n` the one
/// after.
pub open spec fn took_place<W>(m: Nodes<W>, n: Nodes<W>, holder: WidgetId, id: WidgetId) -> bool {
    let p = m[holder].state.parent->0;
    let kids = dropped(m[p].state.children, id);
    &&& n.dom().contains(p) && n.dom().contains(id) && !n.dom().contains(holder)
    &&& n[id].state.parent == Some(p)
    &&& n[id].state.name == (if m[id].state.name is None {
        m[holder].state.name
    } else {
        m[id].state.name
    })
    &&& kids.contains(holder)
    &&& forall|k: int|
        0 <= k < kids.len() && #[trigger] kids[k] == holder ==> n[p].state.children
            == kids.update(k, id)
}

proof fn lemma_put_before(s: Seq<WidgetId>, y: WidgetId, x: WidgetId)
    requires
        s.no_duplicates(),
        s.contains(y),
        !s.contains(x),
    ensures
        put_before(s, y, x).no_duplicates(),
        forall|z: WidgetId| #[trigger] put_before(s, y, x).contains(z) <==> s.contains(z) || z == x,
    decreases s.len(),
{
    let head = s.drop_last();
    let out = put_before(s, y, x);
    assert(s[s.len() - 1] == s.last());
    assert(forall|i: int| 0 <= i < head.len() ==> head[i] == s[i]);
    if s.last() == y {
        assert forall|z: WidgetId| #[trigger] out.contains(z) <==> s.contains(z) || z == x by {
            if s.contains(z) {
                let i = choose|i: int| 0 <= i < s.len() && s[i] == z;
                if i < head.len() {
                    assert(out[i] == z);
                } else {
                    assert(out[i + 1] == z);
                }
            }
            if z == x {
                assert(out[s.len() - 1] == x);
            }
            if out.contains(z) {
                let i = choose|i: int| 0 <= i < out.len() && out[i] == z;
                if i < head.len() {
                    assert(s[i] == z);
                } else if i == s.len() {
                    assert(s[i - 1] == z);
                }
            }
        }
        assert forall|i: int, j: int| 0 <= i < out.len() && 0 <= j < out.len() && i
            != j implies out[i] != out[j] by {
            assert(forall|k: int| 0 <= k < head.len() ==> out[k] == s[k]);
            assert(out[s.len() - 1] == x && out[s.len() as int] == s[s.len() - 1]);
        }
    } else {
        assert(head.contains(y)) by {
            let i = choose|i: int| 0 <= i < s.len() && s[i] == y;
            assert(head[i] == y);
        }
        lemma_put_before(head, y, x);
        let mid = put_before(head, y, x);
        assert forall|z: WidgetId| #[trigger] out.contains(z) <==> s.contains(z) || z == x by {
            if mid.contains(z) {
                let i = choose|i: int| 0 <= i < mid.len() && mid[i] == z;
                assert(out[i] == z);
            }
            if z == s.last() {
                assert(out[mid.len() as int] == z);
            }
            if s.contains(z) && z != s.last() {
                let i = choose|i: int| 0 <= i < s.len() && s[i] == z;
                assert(head[i] == z);
                assert(head.contains(z));
            }
            if head.contains(z) {
                let i = choose|i: int| 0 <= i < head.len() && head[i] == z;
                assert(s[i] == z);
            }
            if out.contains(z) {
                let i = choose|i: int| 0 <= i < out.len() && out[i] == z;
                if i < mid.len() {
                    assert(mid[i] == z);
                    assert(mid.contains(z));
                }
            }
        }
        assert(!mid.contains(s.last())) by {
            if head.contains(s.last()) {
                let i = choose|i: int| 0 <= i < head.len() && head[i] == s.last();
                assert(s[i] == s[s.len() - 1]);
            }
            assert(s.contains(s[s.len() - 1]));
        }
        assert forall|i: int, j: int| 0 <= i < out.len() && 0 <= j < out.len() && i
            != j implies out[i] != out[j] by {
            if i < mid.len() && j < mid.len() {
                assert(out[i] == mid[i] && out[j] == mid[j]);
            } else if i < mid.len() {
                assert(mid.contains(mid[i]));
            } else {
                assert(mid.contains(mid[j]));
            }
        }
    }
}

/// The same widgets, the last of them right before `y`.
fn last_before(kids: &Vec<WidgetId>, y: WidgetId) -> (order: Vec<WidgetId>)
    requires
        kids@.len() > 0,
        kids@.no_duplicates(),
        kids@.drop_last().contains(y),
    ensures
        order@ == put_before(kids@.drop_last(), y, kids@.last()),
        order@.no_duplicates(),
        forall|x: WidgetId| #[trigger] order@.contains(x) <==> kids@.contains(x),
{
    let ghost before = kids@.drop_last();
    let n: usize = kids.len() - 1;
    let x = kids[n];
    let mut order: Vec<WidgetId> = Vec::new();
    let mut i: usize = 0;
    proof {
        assert(before.take(0) =~= Seq::<WidgetId>::empty());
        assert forall|a: int, b: int| 0 <= a < before.len() && 0 <= b < before.len() && a
            != b implies before[a] != before[b] by {
            assert(kids@[a] != kids@[b]);
        }
    }
    while i < n
        invariant
            i <= n,
            n + 1 == kids@.len(),
            x == kids@[n as int],
            before == kids@.drop_last(),
            before.no_duplicates(),
            order@ == (if before.take(i as int).contains(y) {
                put_before(before.take(i as int), y, x)
            } else {
                before.take(i as int)
            }),
        decreases n - i,
    {
        let ghost head = before.take(i as int);
        let ghost next = before.take(i + 1);
        proof {
            assert(next.drop_last() =~= head);
            assert(next.last() == kids@[i as int]);
            assert(next[i as int] == kids@[i as int]);
            if head.contains(y) {
                let k = choose|k: int| 0 <= k < head.len() && head[k] == y;
                assert(next[k] == y);
                assert(before[k] == y);
                assert(before[i as int] != before[k]);
            } else if kids@[i as int] != y {
                if next.contains(y) {
                    let k = choose|k: int| 0 <= k < next.len() && next[k] == y;
                    assert(head[k] == y);
                }
            }
        }
        if kids[i] == y {
            order.push(x);
        }
        order.push(kids[i]);
        i += 1;
        assert(order@ =~= (if next.contains(y) {
            put_before(next, y, x)
        } else {
            next
        }));
    }
    proof {
        assert(before.take(i as int) =~= before);
        assert(!before.contains(x)) by {
            if before.contains(x) {
                let k = choose|k: int| 0 <= k < before.len() && before[k] == x;
                assert(kids@[k] == kids@[n as int]);
            }
        }
        lemma_put_before(before, y, x);
        assert forall|z: WidgetId| #[trigger] order@.contains(z) <==> kids@.contains(z) by {
            if kids@.contains(z) {
                let k = choose|k: int| 0 <= k < kids@.len() && kids@[k] == z;
                if k < before.len() {
                    assert(before[k] == z);
                }
            }
            if before.contains(z) {
                let k = choose|k: int| 0 <= k < before.len() && before[k] == z;
                assert(kids@[k] == z);
            }
            assert(kids@[n as int] == x);
        }
    }
    order
}

impl<W> Ui<W> {
    /// Put a widget that was built earlier in the place of a stand-in: it
    /// stands where the stand-in stood, under its name if it has none of its
    /// own, and the stand-in is gone.
    pub fn stand_in(&mut self, holder: WidgetId, id: WidgetId) -> (r: Result<(), Error>)
        requires
            old(self).wf(),
            old(self)@.nodes.dom().contains(holder) && old(self)@.nodes.dom().contains(id) ==> (
            old(self)@.nodes[holder].state.parent matches Some(p) && id != holder && id != p
                && !old(self).ancestors(p).contains(id)),
        ensures
            final(self).wf(),
            match r {
                Ok(_) => {
                    &&& old(self)@.nodes.dom().contains(holder)
                    &&& old(self)@.nodes.dom().contains(id)
                    &&& final(self)@ == stood_in(
                        old(self)@,
                        old(self).rank(),
                        old(self).top(),
                        final(self).rank(),
                        final(self).top(),
                        holder,
                        id,
                    )
                    &&& took_place(old(self)@.nodes, final(self)@.nodes, holder, id)
                },
                Err(e) => {
                    &&& e is StaleWidget
                    &&& !(old(self)@.nodes.dom().contains(holder)
                        && old(self)@.nodes.dom().contains(id))
                    &&& *final(self) == *old(self)
                },
            },
            final(self).still_retired(old(self)),
            trail(old(self)@.nodes) ==> trail(final(self)@.nodes),
    {
        if !self.is_live(holder) || !self.is_live(id) {
            return Err(Error::StaleWidget);
        }
        let p = match self.parent(holder) {
            Some(p) => p,
            None => {
                return Err(Error::StaleWidget);
            },
        };
        let ghost m = self@.nodes;
        let ghost r0 = self.rank();
        let ghost t0 = self.top();
        proof {
            self.tree_shape();
            reveal(linked);
            let _ = m[p];
            assert(m.dom().contains(p));
        }
        let moved = self.attach(p, id);
        assert(moved is Ok);
        let ghost a = self@.nodes;
        proof {
            self.tree_shape();
            lemma_joined_kids(m, r0, t0, self.rank(), self.top(), p, holder, id);
            lemma_joined_names(m, r0, t0, self.rank(), self.top(), p, id);
        }
        let kids = self.children(p);
        assert(kids@.no_duplicates()) by {
            assert(a.dom().contains(p));
        }
        let order = last_before(&kids, holder);
        self.reorder(p, order);
        let ghost b = self@.nodes;
        if self.address_name(id).is_none() {
            let name = self.address_name(holder);
            self.put_name(id, name);
        }
        let ghost c = self@.nodes;
        proof {
            self.tree_shape();
            assert(b.dom() =~= m.dom());
            assert(c.dom() =~= m.dom());
            lemma_took_place(m, r0, t0, self.rank(), self.top(), p, holder, id, c);
        }
        let gone = self.remove(holder);
        assert(gone is Ok);
        Ok(())
    }
}

/// What hangs under a parent after one more widget was moved under it.
proof fn lemma_joined_kids<W>(
    m: Nodes<W>,
    rank: Map<WidgetId, nat>,
    top: nat,
    ranks: Map<WidgetId, nat>,
    tops: nat,
    p: WidgetId,
    holder: WidgetId,
    id: WidgetId,
)
    requires
        linked(m),
        ranked(m, rank, top),
        m.dom().contains(p),
        m.dom().contains(id),
        m.dom().contains(holder),
        m[holder].state.parent == Some(p),
        id != holder,
        id != p,
    ensures
        ({
            let a = joined(parted(m, rank, top, id), ranks, tops, p, id);
            let kids = a[p].state.children;
            &&& a.dom() == m.dom()
            &&& a[id].state.parent == Some(p)
            &&& a[holder].state.parent == Some(p)
            &&& kids == dropped(m[p].state.children, id).push(id)
            &&& kids.drop_last() == dropped(m[p].state.children, id)
            &&& kids.drop_last().no_duplicates()
            &&& kids.drop_last().contains(holder)
            &&& !kids.drop_last().contains(id)
        }),
{
    reveal(linked);
    let n = parted(m, rank, top, id);
    lemma_parted(m, rank, top, id);
    let h = hung(n, p, id);
    lemma_marked_shape(h, ranks, tops, p, structure());
    let h1 = marked(h, ranks, tops, p, structure());
    lemma_marked_shape(h1, ranks, tops, id, everything());
    let a = joined(n, ranks, tops, p, id);
    assert(h.dom() =~= m.dom());
    let kids = m[p].state.children;
    lemma_dropped(kids, id);
    assert(kids.contains(holder)) by {
        let _ = m[p];
        assert(m.dom().contains(holder));
    }
    assert(m[p].state.children.no_duplicates());
    if m[id].state.parent != Some(p) {
        assert(!kids.contains(id)) by {
            if kids.contains(id) {
                let k = choose|k: int| 0 <= k < kids.len() && kids[k] == id;
                assert(m[kids[k]].state.parent == Some(p));
            }
        }
        lemma_dropped_absent(kids, id);
    }
    assert(unhung(m, id)[p].state.children == dropped(kids, id));
    assert(h.dom().contains(p) && h.dom().contains(id) && h.dom().contains(holder));
    assert(n.dom().contains(p) && n.dom().contains(id));
    assert(same_shape(n, unhung(m, id)));
    assert(n[p].state.children == dropped(kids, id));
    assert(h[p].state.children == dropped(kids, id).push(id));
    assert(h1.dom().contains(p));
    assert(a[p].state.children == h[p].state.children);
    assert(a[p].state.children.drop_last() =~= dropped(kids, id));
    assert(n.dom().contains(holder));
    assert(unhung(m, id)[holder].state.parent == Some(p));
    assert(h1.dom().contains(holder) && h1.dom().contains(id));
}

/// Moving a widget leaves the names as they were.
proof fn lemma_joined_names<W>(
    m: Nodes<W>,
    rank: Map<WidgetId, nat>,
    top: nat,
    ranks: Map<WidgetId, nat>,
    tops: nat,
    p: WidgetId,
    id: WidgetId,
)
    requires
        m.dom().contains(p),
        m.dom().contains(id),
        m[id].state.parent matches Some(q) ==> m.dom().contains(q),
    ensures
        forall|x: WidgetId|
            m.dom().contains(x) ==> (#[trigger] joined(
                parted(m, rank, top, id),
                ranks,
                tops,
                p,
                id,
            )[x]).state.name == m[x].state.name,
{
    reveal(flagged);
    let n = parted(m, rank, top, id);
    let h = hung(n, p, id);
    let h1 = marked(h, ranks, tops, p, structure());
    assert(forall|x: WidgetId|
        m.dom().contains(x) ==> (#[trigger] n[x]).state.name == m[x].state.name
            && n.dom().contains(x));
    assert(forall|x: WidgetId|
        m.dom().contains(x) ==> (#[trigger] h[x]).state.name == m[x].state.name
            && h.dom().contains(x));
    assert(forall|x: WidgetId|
        m.dom().contains(x) ==> (#[trigger] h1[x]).state.name == m[x].state.name
            && h1.dom().contains(x));
}

/// Taking `y` out again leaves `x` in its place.
proof fn lemma_put_back(s: Seq<WidgetId>, y: WidgetId, x: WidgetId, k: int)
    requires
        s.no_duplicates(),
        0 <= k < s.len(),
        s[k] == y,
        x != y,
    ensures
        dropped(put_before(s, y, x), y) == s.update(k, x),
    decreases s.len(),
{
    let head = s.drop_last();
    if s.last() == y {
        assert(k == s.len() - 1);
        let two = head.push(x).push(y);
        assert(two.drop_last() =~= head.push(x));
        assert(head.push(x).drop_last() =~= head);
        if head.contains(y) {
            let i = choose|i: int| 0 <= i < head.len() && head[i] == y;
            assert(s[i] == s[k]);
        }
        lemma_dropped_absent(head, y);
        assert(dropped(head.push(x), y) == head.push(x));
        assert(s.update(k, x) =~= head.push(x));
    } else {
        lemma_put_back(head, y, x, k);
        let mid = put_before(head, y, x);
        assert(mid.push(s.last()).drop_last() =~= mid);
        assert(s.update(k, x) =~= head.update(k, x).push(s.last()));
    }
}

/// Once the stand-in goes, the widget that was put before it has its place.
proof fn lemma_took_place<W>(
    m: Nodes<W>,
    rank: Map<WidgetId, nat>,
    top: nat,
    ranks: Map<WidgetId, nat>,
    tops: nat,
    p: WidgetId,
    holder: WidgetId,
    id: WidgetId,
    c: Nodes<W>,
)
    requires
        linked(m),
        ranked(m, rank, top),
        m.dom().contains(p),
        m.dom().contains(id),
        m.dom().contains(holder),
        m[holder].state.parent == Some(p),
        id != holder,
        id != p,
        linked(c),
        ranked(c, ranks, tops),
        c.dom() == m.dom(),
        c[holder].state.parent == Some(p),
        c[id].state.parent == Some(p),
        c[id].state.name == (if m[id].state.name is None {
            m[holder].state.name
        } else {
            m[id].state.name
        }),
        c[p].state.children == put_before(dropped(m[p].state.children, id), holder, id),
        dropped(m[p].state.children, id).no_duplicates(),
        dropped(m[p].state.children, id).contains(holder),
    ensures
        took_place(
            m,
            parted(c, ranks, tops, holder).remove_keys(subtree(c, ranks, holder).to_set()),
            holder,
            id,
        ),
{
    let kids = dropped(m[p].state.children, id);
    let gone = subtree(c, ranks, holder);
    let d = parted(c, ranks, tops, holder);
    let n = d.remove_keys(gone.to_set());
    lemma_parted(c, ranks, tops, holder);
    lemma_forest_live(c, ranks, seq![holder], ranks[holder] + 1);
    assert(ranks[holder] < ranks[p]) by {
        reveal(ranked);
    }
    assert(!gone.contains(p));
    lemma_forest_closed(c, ranks, tops, seq![holder], ranks[holder] + 1);
    assert(!seq![holder].contains(id)) by {
        assert(seq![holder][0] == holder);
    }
    assert(!gone.contains(id));
    assert(seq![holder][0] == holder);
    assert(gone.contains(holder));
    assert(d.dom().contains(p) && d.dom().contains(id));
    let u = unhung(c, holder);
    assert(u[id].state.name == c[id].state.name);
    assert(u[p].state.children == dropped(c[p].state.children, holder));
    assert(d[id].state.name == u[id].state.name) by {
        reveal(flagged);
    }
    assert forall|k: int|
        0 <= k < kids.len() && #[trigger] kids[k] == holder implies n[p].state.children
        == kids.update(k, id) by {
        lemma_put_back(kids, holder, id, k);
    }
}

proof fn lemma_dropped_absent(s: Seq<WidgetId>, x: WidgetId)
    requires
        !s.contains(x),
    ensures
        dropped(s, x) == s,
    decreases s.len(),
{
    if s.len() > 0 {
        assert(s.contains(s[s.len() - 1]));
        assert forall|y: WidgetId| s.drop_last().contains(y) implies #[trigger] s.contains(y) by {
            let i = choose|i: int| 0 <= i < s.drop_last().len() && s.drop_last()[i] == y;
            assert(s[i] == y);
        }
        lemma_dropped_absent(s.drop_last(), x);
        assert(dropped(s, x) =~= s);
    } else {
        assert(dropped(s, x) =~= s);
    }
}

/// What takes the place of a stand-in stands where that stood, between the
/// same neighbours, and bears the name it bore unless it has one; the stand-in
/// is gone.
pub proof fn a_stand_in_leaves_its_place_and_its_name<W>(
    m: Nodes<W>,
    n: Nodes<W>,
    holder: WidgetId,
    id: WidgetId,
    p: WidgetId,
    k: int,
)
    requires
        took_place(m, n, holder, id),
        m[holder].state.parent == Some(p),
        !m[p].state.children.contains(id),
        0 <= k < m[p].state.children.len(),
        m[p].state.children[k] == holder,
    ensures
        !n.dom().contains(holder),
        n[id].state.parent == Some(p),
        n[p].state.children == m[p].state.children.update(k, id),
        m[id].state.name is None ==> n[id].state.name == m[holder].state.name,
        m[id].state.name is Some ==> n[id].state.name == m[id].state.name,
{
    lemma_none_dropped(m[p].state.children, id);
}

proof fn lemma_none_dropped(s: Seq<WidgetId>, x: WidgetId)
    requires
        !s.contains(x),
    ensures
        dropped(s, x) == s,
    decreases s.len(),
{
    if s.len() > 0 {
        let rest = s.drop_last();
        assert(s[s.len() - 1] == s.last());
        assert forall|i: int| 0 <= i < rest.len() implies rest[i] != x by {
            assert(s.contains(s[i]));
        }
        lemma_none_dropped(rest, x);
        assert(rest.push(s.last()) =~= s);
    }
}

} // verus!
