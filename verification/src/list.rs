//! [`List`]: a virtualised list of rows.
//!
//! A list is the one widget that is not the size of what it shows: the scene
//! holds a screenful of rows plus two, whatever the model holds. What is
//! here is everything but the geometry: which rows are materialised and
//! which of them changed, the cursor and the selection, and what keys,
//! clicks and actions do to them.

use vstd::prelude::*;

use crate::arena::text_view;
use crate::chars::owned;
use crate::ui::access::copy_text;

pub mod driven;
pub mod moves;
pub mod paint;

verus! {

/// Paint slots a materialised row occupies: its background, its glyph, its
/// primary text and its secondary text.
pub const SLOTS_PER_ROW: u16 = 4;

/// First slot a row can use.
pub const ROW_BASE: u16 = 2;

/// Rows materialised beyond the ones that fit, so that a scroll of one row
/// emits nothing.
pub const SPARE_ROWS: usize = 2;

/// How many rows can be materialised before the slot numbers run out.
pub const MAX_RING: usize = 16383;

/// How long a type-ahead prefix survives without another key, in
/// nanoseconds.
pub const TYPE_AHEAD_GAP: u64 = 900000000;

/// Two clicks closer together than this on the same row are a double click,
/// in nanoseconds.
pub const DOUBLE_CLICK: u64 = 400000000;

// ---------------------------------------------------------------------
// rows
// ---------------------------------------------------------------------

/// One line of a [`List`].
#[derive(Debug, Clone, PartialEq, Eq)]
pub struct Row {
    /// A short glyph shown in a column of its own.
    pub icon: Option<String>,
    /// The row's main text, left-aligned.
    pub text: String,
    /// Secondary text, right-aligned: a size, a date, a count.
    pub detail: String,
}

/// What a [`Row`] holds, as mathematical values.
pub struct RowView {
    /// A short glyph.
    pub icon: Option<Seq<char>>,
    /// The main text.
    pub text: Seq<char>,
    /// The secondary text.
    pub detail: Seq<char>,
}

impl View for Row {
    type V = RowView;

    open spec fn view(&self) -> RowView {
        RowView { icon: text_view(self.icon), text: self.text@, detail: self.detail@ }
    }
}

impl Row {
    /// A row with only a primary text.
    pub fn new(text: String) -> (r: Row)
        ensures
            r@ == (RowView { icon: None, text: text@, detail: Seq::empty() }),
    {
        Row { icon: None, text, detail: String::new() }
    }

    /// The same row with a glyph in its icon column.
    pub fn icon(self, icon: String) -> (r: Row)
        ensures
            r@ == (RowView { icon: Some(icon@), ..self@ }),
    {
        Row { icon: Some(icon), text: self.text, detail: self.detail }
    }

    /// The same row with right-aligned secondary text.
    pub fn detail(self, detail: String) -> (r: Row)
        ensures
            r@ == (RowView { detail: detail@, ..self@ }),
    {
        Row { icon: self.icon, text: self.text, detail }
    }

    /// The row again.
    pub fn copy(&self) -> (r: Row)
        ensures
            r@ == self@,
    {
        Row {
            icon: copy_text(&self.icon),
            text: owned(self.text.as_str()),
            detail: owned(self.detail.as_str()),
        }
    }
}

/// What a run of rows holds.
pub open spec fn rows_view(s: Seq<Row>) -> Seq<RowView> {
    s.map_values(|r: Row| r@)
}

/// Where a [`List`] gets its rows.
///
/// A `Vec<Row>` is one. The trait exists for the app whose model is already
/// a `Vec` of something else and would rather format a row on demand.
pub trait ListModel {
    /// The rows, in contracts.
    spec fn rows(&self) -> Seq<RowView>;

    /// How many rows there are.
    fn len(&self) -> (n: usize)
        ensures
            n == self.rows().len(),
    ;

    /// Row `index`, which is always below the length.
    fn row(&self, index: usize) -> (r: Row)
        requires
            index < self.rows().len(),
        ensures
            r@ == self.rows()[index as int],
    ;
}

impl ListModel for Vec<Row> {
    open spec fn rows(&self) -> Seq<RowView> {
        rows_view(self@)
    }

    fn len(&self) -> (n: usize) {
        self.as_slice().len()
    }

    fn row(&self, index: usize) -> (r: Row) {
        self[index].copy()
    }
}

// ---------------------------------------------------------------------
// the list
// ---------------------------------------------------------------------

/// What a materialised slot last drew.
#[derive(Debug, Clone, Copy, PartialEq, Eq, Structural)]
pub struct RowCache {
    /// Which row of the model this slot holds.
    pub row: usize,
    /// The model generation it was taken from.
    pub generation: u64,
    /// Whether it was drawn as selected.
    pub selected: bool,
}

/// A virtualised list of the rows of a model.
pub struct List<M> {
    model: M,
    generation: u64,
    anchor: usize,
    ring: usize,
    cache: Vec<Option<RowCache>>,
    cursor: usize,
    selected: Vec<usize>,
    extend_from: usize,
    prefix: String,
    prefix_at: Option<u64>,
    last_click: Option<(usize, u64)>,
    dirty_rows: bool,
    first: usize,
    fits: usize,
}

/// What a [`List`] holds, as mathematical values.
pub struct ListView {
    /// The rows of the model.
    pub rows: Seq<RowView>,
    /// Bumped whenever the model is replaced.
    pub generation: u64,
    /// First materialised row.
    pub anchor: int,
    /// How many rows can be materialised.
    pub ring: int,
    /// What each ring slot last drew.
    pub cache: Seq<Option<RowCache>>,
    /// The row the keyboard is on.
    pub cursor: int,
    /// The selected rows.
    pub selected: Set<usize>,
    /// Where an extended selection started.
    pub extend_from: int,
    /// What was typed to jump to a row.
    pub prefix: Seq<char>,
    /// When that was last added to.
    pub prefix_at: Option<u64>,
    /// The last click: the row and the time.
    pub last_click: Option<(usize, u64)>,
    /// Whether every row has to be emitted again.
    pub dirty_rows: bool,
    /// The first row that the viewport shows.
    pub first: int,
    /// How many rows the viewport shows.
    pub fits: int,
}

/// Strictly ascending.
pub open spec fn ascending(s: Seq<usize>) -> bool {
    forall|i: int, j: int| 0 <= i < j < s.len() ==> s[i] < s[j]
}

impl<M: ListModel> View for List<M> {
    type V = ListView;

    closed spec fn view(&self) -> ListView {
        ListView {
            rows: self.model.rows(),
            generation: self.generation,
            anchor: self.anchor as int,
            ring: self.ring as int,
            cache: self.cache@,
            cursor: self.cursor as int,
            selected: self.selected@.to_set(),
            extend_from: self.extend_from as int,
            prefix: self.prefix@,
            prefix_at: self.prefix_at,
            last_click: self.last_click,
            dirty_rows: self.dirty_rows,
            first: self.first as int,
            fits: self.fits as int,
        }
    }
}

/// The smaller of two.
pub open spec fn least(a: int, b: int) -> int {
    if a < b {
        a
    } else {
        b
    }
}

/// A row number kept on the list: the last row where it is past the end.
pub open spec fn on_list(v: ListView, i: int) -> int {
    if v.rows.len() == 0 {
        0
    } else {
        least(i, v.rows.len() - 1)
    }
}

/// One past the last row that the viewport shows.
pub open spec fn view_end(v: ListView) -> int {
    least(first_shown(v) + v.fits, v.rows.len() as int)
}

/// The first row that the viewport shows, kept on the list.
pub open spec fn first_shown(v: ListView) -> int {
    least(v.first, v.rows.len() as int)
}

/// Where the materialised window should start: at the first visible row,
/// pulled back so that it never runs off the end of the model.
pub open spec fn wanted_anchor(v: ListView) -> int {
    least(first_shown(v), if v.rows.len() >= v.ring {
        v.rows.len() - v.ring
    } else {
        0
    })
}

/// Whether the materialised window covers what the viewport shows.
pub open spec fn covers_view(v: ListView) -> bool {
    v.ring > 0 && first_shown(v) >= v.anchor && view_end(v) <= v.anchor + v.ring
}

impl<M: ListModel> List<M> {
    /// The invariant: the selection is ascending, the cache has one entry
    /// for each slot, there are two slots more than rows that fit, the slot
    /// numbers suffice, and the cursor is on the list.
    pub closed spec fn wf(&self) -> bool {
        &&& ascending(self.selected@)
        &&& self.cache@.len() == self.ring
        &&& self.ring <= MAX_RING
        &&& self.ring == 0 || self.ring == self.fits + SPARE_ROWS
        &&& self.cursor == 0 || self.cursor < self.model.rows().len()
        &&& self.extend_from == 0 || self.extend_from < self.model.rows().len()
    }

    /// A list of a model's rows. Nothing is materialised yet.
    pub fn new(model: M) -> (l: List<M>)
        ensures
            l.wf(),
            l@ == (ListView {
                rows: model.rows(),
                generation: 0,
                anchor: 0,
                ring: 0,
                cache: Seq::empty(),
                cursor: 0,
                selected: Set::empty(),
                extend_from: 0,
                prefix: Seq::empty(),
                prefix_at: None,
                last_click: None,
                dirty_rows: true,
                first: 0,
                fits: 0,
            }),
    {
        let l = List {
            model,
            generation: 0,
            anchor: 0,
            ring: 0,
            cache: Vec::new(),
            cursor: 0,
            selected: Vec::new(),
            extend_from: 0,
            prefix: String::new(),
            prefix_at: None,
            last_click: None,
            dirty_rows: true,
            first: 0,
            fits: 0,
        };
        assert(l@.selected =~= Set::<usize>::empty());
        l
    }

    // -- reading a list -----------------------------------------------

    /// How many rows the model holds.
    pub fn len(&self) -> (n: usize)
        ensures
            n == self@.rows.len(),
    {
        self.model.len()
    }

    /// Whether the model is empty.
    pub fn is_empty(&self) -> (r: bool)
        ensures
            r == (self@.rows.len() == 0),
    {
        self.model.len() == 0
    }

    /// Row `index` of the model, or `None` past the end.
    pub fn row(&self, index: usize) -> (r: Option<Row>)
        ensures
            match r {
                Some(row) => index < self@.rows.len() && row@ == self@.rows[index as int],
                None => index >= self@.rows.len(),
            },
    {
        if index < self.model.len() {
            Some(self.model.row(index))
        } else {
            None
        }
    }

    /// The row the keyboard is on.
    pub fn cursor(&self) -> (n: usize)
        ensures
            n == self@.cursor,
    {
        self.cursor
    }

    /// Every selected row, ascending.
    pub fn selection(&self) -> (out: Vec<usize>)
        requires
            self.wf(),
        ensures
            ascending(out@),
            out@.to_set() == self@.selected,
    {
        let mut out: Vec<usize> = Vec::new();
        let mut i: usize = 0;
        while i < self.selected.len()
            invariant
                i <= self.selected.len(),
                out@ == self.selected@.take(i as int),
            decreases self.selected.len() - i,
        {
            out.push(self.selected[i]);
            assert(self.selected@.take(i + 1) =~= self.selected@.take(i as int).push(
                self.selected@[i as int],
            ));
            i += 1;
        }
        assert(self.selected@.take(i as int) =~= self.selected@);
        out
    }

    /// Whether a row is selected.
    pub fn is_selected(&self, index: usize) -> (r: bool)
        ensures
            r == self@.selected.contains(index),
    {
        let mut i: usize = 0;
        while i < self.selected.len()
            invariant
                i <= self.selected.len(),
                forall|k: int| 0 <= k < i ==> self.selected@[k] != index,
            decreases self.selected.len() - i,
        {
            if self.selected[i] == index {
                assert(self.selected@.contains(index));
                return true;
            }
            i += 1;
        }
        false
    }

    /// How many rows are materialised into scene nodes: as many as fit and
    /// two more, whatever the model holds.
    pub fn materialised(&self) -> (n: usize)
        ensures
            n == least(self@.ring, self@.rows.len() as int),
            self.wf() ==> n <= self@.fits + SPARE_ROWS,
    {
        let len: usize = self.model.len();
        if self.ring < len {
            self.ring
        } else {
            len
        }
    }

    /// The first row the viewport shows, whole or in part.
    pub fn first_visible(&self) -> (n: usize)
        ensures
            n == first_shown(self@),
    {
        let len: usize = self.model.len();
        if self.first < len {
            self.first
        } else {
            len
        }
    }

    /// How many rows the viewport can show at once.
    pub fn rows_that_fit(&self) -> (n: usize)
        ensures
            n == self@.fits,
    {
        self.fits
    }

    fn end_of_view(&self) -> (n: usize)
        ensures
            n == view_end(self@),
    {
        let first: usize = self.first_visible();
        let len: usize = self.model.len();
        if self.fits < len - first {
            first + self.fits
        } else {
            len
        }
    }

    /// The rows currently inside the viewport, with their numbers: the
    /// honest answer to what this widget reads.
    pub fn visible_rows(&self) -> (out: Vec<(usize, Row)>)
        ensures
            out@.len() == view_end(self@) - first_shown(self@),
            forall|k: int|
                0 <= k < out@.len() ==> (#[trigger] out@[k]).0 == first_shown(self@) + k
                    && out@[k].1@ == self@.rows[first_shown(self@) + k],
    {
        let first: usize = self.first_visible();
        let end: usize = self.end_of_view();
        let mut out: Vec<(usize, Row)> = Vec::new();
        let mut i: usize = first;
        while i < end
            invariant
                first <= i <= end,
                first == first_shown(self@),
                end == view_end(self@),
                end <= self@.rows.len(),
                out@.len() == i - first,
                forall|k: int|
                    0 <= k < out@.len() ==> (#[trigger] out@[k]).0 == first + k && out@[k].1@
                        == self@.rows[first + k],
            decreases end - i,
        {
            out.push((i, self.model.row(i)));
            i += 1;
        }
        out
    }

    /// Whether the materialised window still covers everything the viewport
    /// shows, so that a scroll need not touch the rows.
    pub fn window_covers_view(&self) -> (r: bool)
        requires
            self.wf(),
        ensures
            r == covers_view(self@),
    {
        if self.ring == 0 {
            return false;
        }
        let first: usize = self.first_visible();
        let end: usize = self.end_of_view();
        first >= self.anchor && (end <= self.anchor || end - self.anchor <= self.ring)
    }

    fn want_anchor(&self) -> (n: usize)
        ensures
            n == wanted_anchor(self@),
    {
        let len: usize = self.model.len();
        let last_start: usize = if len >= self.ring {
            len - self.ring
        } else {
            0
        };
        let first: usize = self.first_visible();
        if first < last_start {
            first
        } else {
            last_start
        }
    }

    // -- what the geometry says -----------------------------------------

    /// The viewport shows `fits` rows, the first of which is `first`. A
    /// change of how many fit materialises the rows anew.
    pub fn set_view(&mut self, first: usize, fits: usize)
        requires
            old(self).wf(),
            fits + SPARE_ROWS <= MAX_RING,
        ensures
            final(self).wf(),
            final(self)@ == (if fits + SPARE_ROWS == old(self)@.ring {
                ListView { first: first as int, fits: fits as int, ..old(self)@ }
            } else {
                ListView {
                    first: first as int,
                    fits: fits as int,
                    ring: fits + SPARE_ROWS,
                    cache: Seq::new((fits + SPARE_ROWS) as nat, |i: int| None),
                    dirty_rows: true,
                    ..old(self)@
                }
            }),
    {
        self.first = first;
        self.fits = fits;
        let want: usize = fits + SPARE_ROWS;
        if want != self.ring {
            self.ring = want;
            self.cache = empty_cache(want);
            self.dirty_rows = true;
        }
    }

    /// The viewport scrolled: `first` is its first row now.
    pub fn set_first(&mut self, first: usize)
        requires
            old(self).wf(),
        ensures
            final(self).wf(),
            final(self)@ == (ListView { first: first as int, ..old(self)@ }),
    {
        self.first = first;
    }

    /// Something that the rows are derived from changed: the width, the row
    /// height or the look. The next paint emits them all.
    pub fn spoil_rows(&mut self)
        requires
            old(self).wf(),
        ensures
            final(self).wf(),
            final(self)@ == (ListView { dirty_rows: true, ..old(self)@ }),
    {
        self.dirty_rows = true;
    }
}

fn empty_cache(n: usize) -> (out: Vec<Option<RowCache>>)
    ensures
        out@ == Seq::new(n as nat, |i: int| None::<RowCache>),
{
    let mut out: Vec<Option<RowCache>> = Vec::new();
    let mut i: usize = 0;
    while i < n
        invariant
            i <= n,
            out@.len() == i,
            forall|k: int| 0 <= k < i ==> (#[trigger] out@[k]) is None,
        decreases n - i,
    {
        out.push(None);
        i += 1;
    }
    assert(out@ =~= Seq::new(n as nat, |i: int| None::<RowCache>));
    out
}

} // verus!
