//! Which rows of a [`List`] a paint has to emit again, and what a list
//! reads.

use vstd::arithmetic::div_mod::{
    lemma_add_mod_noop_right, lemma_mod_bound, lemma_small_mod, lemma_sub_mod_noop,
};
use vstd::prelude::*;

use crate::introspect::text::{join, joined, strings_view};
use crate::list::moves::moved_to;
use crate::list::{
    covers_view, empty_cache, first_shown, least, on_list, view_end, wanted_anchor, List,
    ListModel, ListView, Row, RowCache, RowView, ROW_BASE, SLOTS_PER_ROW,
};
use crate::widget::{Access, AccessView, Role, Widget};

verus! {

/// How much of a row a paint emits.
#[derive(Debug, Clone, Copy, PartialEq, Eq, Structural)]
pub enum Redraw {
    /// Nothing: the row is on screen as it should be.
    Keep,
    /// The background: only the selection changed.
    Background,
    /// All of it.
    Everything,
}

/// What a paint does about one row.
#[derive(Debug, Clone, Copy, PartialEq, Eq, Structural)]
pub struct RowPaint {
    /// The row.
    pub row: usize,
    /// The first of its slots.
    pub slot: u16,
    /// Whether it is drawn as selected.
    pub selected: bool,
    /// How much of it is emitted.
    pub redraw: Redraw,
}

/// One past the last row that is materialised.
pub open spec fn window_end(v: ListView) -> int {
    least(wanted_anchor(v) + v.ring, v.rows.len() as int)
}

/// The place of a row in the ring.
pub open spec fn place(v: ListView, i: int) -> int {
    i % v.ring
}

/// The first slot of a row.
pub open spec fn slot_of(v: ListView, i: int) -> int {
    ROW_BASE + place(v, i) * SLOTS_PER_ROW
}

/// How much of a row the next paint emits.
pub open spec fn redraw(v: ListView, i: int) -> Redraw {
    match v.cache[place(v, i)] {
        Some(c) => if c.row == i && c.generation == v.generation && !v.dirty_rows {
            if c.selected == v.selected.contains(i as usize) {
                Redraw::Keep
            } else {
                Redraw::Background
            }
        } else {
            Redraw::Everything
        },
        None => Redraw::Everything,
    }
}

/// What the next paint does about a row.
pub open spec fn row_paint(v: ListView, i: int) -> RowPaint {
    RowPaint {
        row: i as usize,
        slot: slot_of(v, i) as u16,
        selected: v.selected.contains(i as usize),
        redraw: redraw(v, i),
    }
}

/// What the next paint does about each row of the window, in order.
pub open spec fn plan(v: ListView) -> Seq<RowPaint> {
    if v.ring == 0 {
        Seq::empty()
    } else {
        Seq::new(
            (window_end(v) - wanted_anchor(v)) as nat,
            |k: int| row_paint(v, wanted_anchor(v) + k),
        )
    }
}

/// What a place in the ring holds once the rows from `anchor` up to `end`
/// are drawn: the one row of them that belongs there, if there is one.
pub open spec fn drawn(v: ListView, anchor: int, end: int, s: int) -> Option<RowCache> {
    let i = anchor + (s - anchor) % v.ring;
    if i < end {
        Some(
            RowCache {
                row: i as usize,
                generation: v.generation,
                selected: v.selected.contains(i as usize),
            },
        )
    } else {
        None
    }
}

/// The list after a paint.
pub open spec fn painted(v: ListView) -> ListView {
    if v.ring == 0 {
        v
    } else {
        ListView {
            anchor: wanted_anchor(v),
            cache: Seq::new(
                v.ring as nat,
                |s: int| drawn(v, wanted_anchor(v), window_end(v), s),
            ),
            dirty_rows: false,
            ..v
        }
    }
}

/// In a window no longer than the ring, a place belongs to one row.
proof fn lemma_place(anchor: int, ring: int, i: int, s: int)
    requires
        0 < ring,
        0 <= anchor <= i < anchor + ring,
        0 <= s < ring,
    ensures
        0 <= (s - anchor) % ring < ring,
        0 <= i % ring < ring,
        anchor + (s - anchor) % ring == i <==> s == i % ring,
{
    lemma_mod_bound(s - anchor, ring);
    lemma_mod_bound(i, ring);
    if anchor + (s - anchor) % ring == i {
        lemma_add_mod_noop_right(anchor, s - anchor, ring);
        assert(anchor + (s - anchor) == s);
        lemma_small_mod(s as nat, ring as nat);
    }
    if s == i % ring {
        lemma_sub_mod_noop(i, anchor, ring);
        lemma_sub_mod_noop(s, anchor, ring);
        lemma_small_mod(s as nat, ring as nat);
        lemma_small_mod((i - anchor) as nat, ring as nat);
        assert((s - anchor) % ring == (i - anchor) % ring);
    }
}

/// What a row reads: its text, and its detail behind a tab.
pub open spec fn row_reads(r: RowView) -> Seq<char> {
    if r.detail.len() == 0 {
        r.text
    } else {
        r.text + "\t"@ + r.detail
    }
}

/// What a list reads: the rows that the viewport shows, one on a line.
pub open spec fn list_reads(v: ListView) -> Seq<char> {
    joined(
        Seq::new(
            (view_end(v) - first_shown(v)) as nat,
            |k: int| row_reads(v.rows[first_shown(v) + k]),
        ),
        '\n',
    )
}

fn reading(r: &Row) -> (out: String)
    ensures
        out@ == row_reads(r@),
{
    let mut out = String::new();
    out.append(r.text.as_str());
    assert(Seq::<char>::empty() + r.text@ =~= r.text@);
    if r.detail.unicode_len() > 0 {
        out.append("\t");
        out.append(r.detail.as_str());
    }
    out
}

impl<M: ListModel> List<M> {
    /// Decide what a paint emits of each materialised row, and note it as
    /// drawn.
    pub fn paint(&mut self) -> (rows: Vec<RowPaint>)
        requires
            old(self).wf(),
        ensures
            final(self).wf(),
            rows@ == plan(old(self)@),
            final(self)@ == painted(old(self)@),
    {
        let mut rows: Vec<RowPaint> = Vec::new();
        if self.ring == 0 {
            return rows;
        }
        let anchor: usize = self.want_anchor();
        let len: usize = self.model.len();
        let end: usize = if self.ring < len - anchor {
            anchor + self.ring
        } else {
            len
        };
        let ghost v = self@;
        let mut cache = empty_cache(self.ring);
        let mut i: usize = anchor;
        while i < end
            invariant
                anchor <= i <= end,
                *self == *old(self),
                self.wf(),
                v == self@,
                v.ring > 0,
                v.ring == self.ring,
                anchor == wanted_anchor(v),
                end == window_end(v),
                rows@ == plan(v).take(i - anchor),
                cache@.len() == v.ring,
                forall|s: int|
                    0 <= s < v.ring ==> #[trigger] cache@[s] == drawn(v, anchor as int, i as int, s),
            decreases end - i,
        {
            let at: usize = i % self.ring;
            let selected: bool = self.is_selected(i);
            proof {
                lemma_place(anchor as int, v.ring, i as int, at as int);
                assert(at == place(v, i as int));
            }
            let redraw = match self.cache[at] {
                Some(c) => if c.row == i && c.generation == self.generation && !self.dirty_rows {
                    if c.selected == selected {
                        Redraw::Keep
                    } else {
                        Redraw::Background
                    }
                } else {
                    Redraw::Everything
                },
                None => Redraw::Everything,
            };
            let slot: u16 = ROW_BASE + (at as u16) * SLOTS_PER_ROW;
            rows.push(RowPaint { row: i, slot, selected, redraw });
            cache.set(at, Some(RowCache { row: i, generation: self.generation, selected }));
            proof {
                assert(plan(v)[i - anchor] == row_paint(v, i as int));
                assert(rows@ =~= plan(v).take(i + 1 - anchor));
                assert forall|s: int| 0 <= s < v.ring implies #[trigger] cache@[s] == drawn(
                    v,
                    anchor as int,
                    i + 1,
                    s,
                ) by {
                    lemma_place(anchor as int, v.ring, i as int, s);
                }
            }
            i += 1;
        }
        self.anchor = anchor;
        self.cache = cache;
        self.dirty_rows = false;
        assert(rows@ =~= plan(v));
        assert(self@.cache =~= painted(v).cache);
        rows
    }
}

impl<M: ListModel> Widget for List<M> {
    open spec fn role_view(&self) -> Role {
        Role::List
    }

    open spec fn enabled_view(&self) -> bool {
        true
    }

    open spec fn access_view(&self) -> AccessView {
        AccessView {
            name: None,
            value: Some(list_reads(self@)),
            actions: seq!["activate"@, "select"@, "scroll_to"@, "scroll_by"@, "focus"@],
        }
    }

    fn role(&self) -> (r: Role) {
        Role::List
    }

    fn enabled(&self) -> (r: bool) {
        true
    }

    fn accessible(&self) -> (a: Access) {
        let rows = self.visible_rows();
        let ghost v = self@;
        let ghost first = first_shown(v);
        let mut lines: Vec<String> = Vec::new();
        let mut i: usize = 0;
        while i < rows.len()
            invariant
                i <= rows.len(),
                lines@.len() == i,
                v == self@,
                first == first_shown(v),
                forall|k: int| 0 <= k < rows@.len() ==> (#[trigger] rows@[k]).1@ == v.rows[first + k],
                forall|k: int| 0 <= k < i ==> (#[trigger] lines@[k])@ == row_reads(v.rows[first + k]),
            decreases rows.len() - i,
        {
            lines.push(reading(&rows[i].1));
            i += 1;
        }
        proof {
            assert(strings_view(lines@) =~= Seq::new(
                (view_end(v) - first) as nat,
                |k: int| row_reads(v.rows[first + k]),
            ));
        }
        let value = join(&lines, '\n');
        let mut actions: Vec<&'static str> = Vec::new();
        actions.push("activate");
        actions.push("select");
        actions.push("scroll_to");
        actions.push("scroll_by");
        actions.push("focus");
        let a = Access { name: None, value: Some(value), actions };
        assert(a@.actions =~= self.access_view().actions);
        a
    }
}

// ---------------------------------------------------------------------
// laws
// ---------------------------------------------------------------------

/// What a list can be once it has been laid out: as many slots as rows that
/// fit and at least one more, and a number for each row.
pub open spec fn laid_out(v: ListView) -> bool {
    &&& 0 < v.fits < v.ring
    &&& v.cache.len() == v.ring
    &&& 0 <= v.first
    &&& v.rows.len() <= usize::MAX
}

proof fn lemma_drawn(v: ListView, i: int)
    requires
        laid_out(v),
        wanted_anchor(v) <= i < window_end(v),
    ensures
        painted(v).cache[place(v, i)] == Some(
            RowCache {
                row: i as usize,
                generation: v.generation,
                selected: v.selected.contains(i as usize),
            },
        ),
{
    lemma_place(wanted_anchor(v), v.ring, i, place(v, i));
}

/// A change of the selection costs a background for each materialised row
/// that it reaches, and nothing for the others.
pub proof fn selecting_costs_backgrounds(v: ListView, selected: Set<usize>, i: int)
    requires
        laid_out(v),
        wanted_anchor(v) <= i < window_end(v),
    ensures
        redraw(ListView { selected, ..painted(v) }, i) == (if v.selected.contains(i as usize)
            == selected.contains(i as usize) {
            Redraw::Keep
        } else {
            Redraw::Background
        }),
{
    lemma_drawn(v, i);
}

/// A list that was painted and left alone emits nothing when it is painted
/// again.
pub proof fn a_settled_list_paints_nothing(v: ListView)
    requires
        laid_out(v),
    ensures
        plan(painted(v)).len() == plan(v).len(),
        forall|k: int|
            0 <= k < plan(painted(v)).len() ==> (#[trigger] plan(painted(v))[k]).redraw
                == Redraw::Keep,
{
    let p = painted(v);
    assert forall|k: int| 0 <= k < plan(p).len() implies (#[trigger] plan(p)[k]).redraw
        == Redraw::Keep by {
        selecting_costs_backgrounds(v, v.selected, wanted_anchor(v) + k);
        assert(ListView { selected: v.selected, ..p } == p);
    }
}

/// Moving the cursor from one selected row to another redraws at most the
/// backgrounds of those two.
pub proof fn moving_the_cursor_redraws_two_rows(v: ListView, from: usize, index: int, i: int)
    requires
        laid_out(v),
        v.selected == set![from],
        0 <= index,
        wanted_anchor(v) <= i < window_end(v),
        i != from,
        i != on_list(v, index),
    ensures
        redraw(moved_to(painted(v), index, false), i) == Redraw::Keep,
{
    let at = on_list(v, index);
    selecting_costs_backgrounds(v, set![at as usize], i);
    assert(moved_to(painted(v), index, false) == (ListView {
        cursor: at,
        extend_from: at,
        selected: set![at as usize],
        ..painted(v)
    }));
    lemma_drawn(v, i);
}

/// No two materialised rows share a slot.
pub proof fn rows_have_slots_of_their_own(v: ListView, i: int, j: int)
    requires
        laid_out(v),
        wanted_anchor(v) <= i < window_end(v),
        wanted_anchor(v) <= j < window_end(v),
        i != j,
    ensures
        slot_of(v, i) + SLOTS_PER_ROW <= slot_of(v, j) || slot_of(v, j) + SLOTS_PER_ROW <= slot_of(
            v,
            i,
        ),
        slot_of(v, i) >= ROW_BASE,
{
    lemma_place(wanted_anchor(v), v.ring, i, place(v, j));
    lemma_place(wanted_anchor(v), v.ring, j, place(v, j));
}

/// Right after a paint the materialised window covers what the viewport
/// shows.
pub proof fn a_paint_covers_the_view(v: ListView)
    requires
        laid_out(v),
    ensures
        covers_view(painted(v)),
{
}

} // verus!
