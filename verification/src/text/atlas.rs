//! The glyph atlas: one-byte coverage masks, shelf-packed into square pages.
//!
//! A [`GlyphKey`] names a glyph of a face at a size and a subpixel phase, so
//! that the same glyph is rasterised once. A miss is rendered by whoever
//! holds the font and handed in; the atlas packs it and never moves it.

use std::collections::HashMap;

use vstd::arithmetic::div_mod::*;
use vstd::arithmetic::mul::*;
use vstd::prelude::*;

use crate::text::db::FontId;

verus! {

broadcast use vstd::std_specs::hash::group_hash_axioms;

/// Page edge, in pixels. A page is one mebibyte.
pub const PAGE: u32 = 1024;

/// Cache key of one rendered glyph mask.
///
/// The size is quantized to 1/64 px and the subpixel offset to quarter
/// pixels, so that a run that slides horizontally reuses four masks per
/// glyph instead of one per position.
#[derive(Debug, Clone, Copy, PartialEq, Eq, Structural, Hash)]
pub struct GlyphKey {
    /// Face the glyph belongs to.
    pub font: FontId,
    /// Glyph id.
    pub glyph: u16,
    /// The size in 64ths of a pixel.
    pub size_q: u32,
    /// Subpixel x phase, 0..=3 (quarter pixels).
    pub subpx: u8,
}

/// Where a rendered mask lives in the atlas.
#[derive(Debug, Clone, Copy, PartialEq, Eq, Structural)]
pub struct MaskInfo {
    /// Page index.
    pub page: u32,
    /// X of the mask's left edge in the page.
    pub x: u32,
    /// Y of the mask's top edge in the page.
    pub y: u32,
    /// Mask width in pixels.
    pub w: u32,
    /// Mask height in pixels.
    pub h: u32,
    /// X offset from the glyph origin to the mask's left edge.
    pub left: i32,
    /// Y offset from the glyph origin upward to the mask's top edge.
    pub top: i32,
}

/// What the rasteriser made of a glyph.
#[derive(Debug)]
pub struct Image {
    /// Whether the pixels are one byte of coverage each.
    pub mask: bool,
    /// Width in pixels.
    pub w: u32,
    /// Height in pixels.
    pub h: u32,
    /// X offset from the glyph origin to the left edge.
    pub left: i32,
    /// Y offset from the glyph origin upward to the top edge.
    pub top: i32,
    /// The pixels, row by row.
    pub data: Vec<u8>,
}

// ---------------------------------------------------------------------
// one page
// ---------------------------------------------------------------------

/// A shelf-packed page of coverage.
pub struct Page {
    pixels: Vec<u8>,
    shelf_y: u32,
    shelf_h: u32,
    cursor_x: u32,
}

/// Where the next mask goes on a page.
#[derive(Debug, Clone, Copy, PartialEq, Eq, Structural)]
pub struct Pen {
    /// Y of the current shelf.
    pub shelf_y: u32,
    /// Height of the current shelf.
    pub shelf_h: u32,
    /// X cursor within the current shelf.
    pub cursor_x: u32,
}

/// The pen with room for a mask of width `w` before it: on the next shelf
/// where the current one is full.
pub open spec fn shelved(p: Pen, size: u32, w: u32) -> Pen {
    if p.cursor_x + w > size {
        Pen { shelf_y: (p.shelf_y + p.shelf_h) as u32, shelf_h: 0, cursor_x: 0 }
    } else {
        p
    }
}

/// The larger of two.
pub open spec fn larger(a: int, b: int) -> int {
    if a < b {
        b
    } else {
        a
    }
}

/// Where a mask goes, and the pen after it: one pixel is left free to its
/// right and below it. A mask that does not fit goes nowhere.
pub open spec fn placed(p: Pen, size: u32, w: u32, h: u32) -> (Option<(u32, u32)>, Pen) {
    if w > size || h > size {
        (None, p)
    } else {
        let q = shelved(p, size, w);
        if q.shelf_y + h > size {
            (None, q)
        } else {
            (
                Some((q.cursor_x, q.shelf_y)),
                Pen {
                    shelf_y: q.shelf_y,
                    shelf_h: larger(q.shelf_h as int, h + 1) as u32,
                    cursor_x: (q.cursor_x + w + 1) as u32,
                },
            )
        }
    }
}

/// The pen stays on the page, but for the free pixel.
pub open spec fn pen_ok(p: Pen, size: u32) -> bool {
    &&& p.cursor_x <= size + 1
    &&& p.shelf_y + p.shelf_h <= size + 1
}

/// Whether a rectangle is on the page and behind the pen: on an earlier
/// shelf, or on the current one to the left of the cursor.
pub open spec fn behind(p: Pen, size: u32, x: int, y: int, w: int, h: int) -> bool {
    &&& 0 <= x && 0 <= y && 0 <= w && 0 <= h
    &&& x + w <= size
    &&& y + h <= size
    &&& y + h + 1 <= p.shelf_y || (y == p.shelf_y && x + w + 1 <= p.cursor_x && h + 1 <= p.shelf_h)
}

/// Whether two rectangles are at least one pixel apart.
pub open spec fn apart(
    x1: int,
    y1: int,
    w1: int,
    h1: int,
    x2: int,
    y2: int,
    w2: int,
    h2: int,
) -> bool {
    x1 + w1 < x2 || x2 + w2 < x1 || y1 + h1 < y2 || y2 + h2 < y1
}

/// Packing keeps masks apart: a new mask is on the page, at least one pixel
/// away from all that is behind the pen, and is behind the pen from then on,
/// as is everything that was.
pub proof fn packed_masks_never_overlap(p: Pen, size: u32, w: u32, h: u32)
    requires
        size < u32::MAX,
        pen_ok(p, size),
    ensures
        ({
            let (at, q) = placed(p, size, w, h);
            &&& pen_ok(q, size)
            &&& forall|x: int, y: int, w2: int, h2: int| #[trigger]
                behind(p, size, x, y, w2, h2) ==> behind(q, size, x, y, w2, h2)
            &&& at matches Some(xy) ==> {
                &&& behind(q, size, xy.0 as int, xy.1 as int, w as int, h as int)
                &&& forall|x: int, y: int, w2: int, h2: int| #[trigger]
                    behind(p, size, x, y, w2, h2) ==> apart(
                        x,
                        y,
                        w2,
                        h2,
                        xy.0 as int,
                        xy.1 as int,
                        w as int,
                        h as int,
                    )
            }
        }),
{
    let q = shelved(p, size, w);
    let (at, r) = placed(p, size, w, h);
    assert(pen_ok(r, size));
    assert forall|x: int, y: int, w2: int, h2: int| #[trigger] behind(p, size, x, y, w2, h2) implies behind(
        r,
        size,
        x,
        y,
        w2,
        h2,
    ) by {}
    if let Some(xy) = at {
        assert(behind(r, size, xy.0 as int, xy.1 as int, w as int, h as int));
    }
}

/// The pen of an empty page after room was asked for a run of masks, each a
/// width and a height.
pub open spec fn pen_after(size: u32, asked: Seq<(u32, u32)>) -> Pen
    decreases asked.len(),
{
    if asked.len() == 0 {
        Pen { shelf_y: 0, shelf_h: 0, cursor_x: 0 }
    } else {
        placed(pen_after(size, asked.drop_last()), size, asked.last().0, asked.last().1).1
    }
}

/// The room that the mask `i` of a run got.
pub open spec fn room_of(size: u32, asked: Seq<(u32, u32)>, i: int) -> Option<(u32, u32)> {
    placed(pen_after(size, asked.take(i)), size, asked[i].0, asked[i].1).0
}

proof fn lemma_pen_after(size: u32, asked: Seq<(u32, u32)>)
    requires
        size < u32::MAX,
    ensures
        pen_ok(pen_after(size, asked), size),
    decreases asked.len(),
{
    if asked.len() > 0 {
        lemma_pen_after(size, asked.drop_last());
        packed_masks_never_overlap(
            pen_after(size, asked.drop_last()),
            size,
            asked.last().0,
            asked.last().1,
        );
    }
}

proof fn lemma_room_stays(size: u32, asked: Seq<(u32, u32)>, i: int, n: int)
    requires
        size < u32::MAX,
        0 <= i < n <= asked.len(),
        room_of(size, asked, i) is Some,
    ensures
        ({
            let at = room_of(size, asked, i)->0;
            behind(
                pen_after(size, asked.take(n)),
                size,
                at.0 as int,
                at.1 as int,
                asked[i].0 as int,
                asked[i].1 as int,
            )
        }),
    decreases n,
{
    let last = asked.take(n);
    assert(last.drop_last() =~= asked.take(n - 1));
    lemma_pen_after(size, asked.take(n - 1));
    packed_masks_never_overlap(
        pen_after(size, asked.take(n - 1)),
        size,
        asked[n - 1].0,
        asked[n - 1].1,
    );
    if i < n - 1 {
        lemma_room_stays(size, asked, i, n - 1);
    }
}

/// However room is asked for on a page, and whatever is refused in between:
/// all room that was given is on the page, and any two masks are at least
/// one pixel apart.
pub proof fn any_two_masks_are_apart(size: u32, asked: Seq<(u32, u32)>, i: int, j: int)
    requires
        size < u32::MAX,
        0 <= i < j < asked.len(),
    ensures
        room_of(size, asked, i) matches Some(a) ==> a.0 + asked[i].0 <= size && a.1 + asked[i].1
            <= size,
        room_of(size, asked, j) matches Some(b) ==> b.0 + asked[j].0 <= size && b.1 + asked[j].1
            <= size,
        room_of(size, asked, i) matches Some(a) ==> (room_of(size, asked, j) matches Some(b)
            ==> apart(
            a.0 as int,
            a.1 as int,
            asked[i].0 as int,
            asked[i].1 as int,
            b.0 as int,
            b.1 as int,
            asked[j].0 as int,
            asked[j].1 as int,
        )),
{
    lemma_pen_after(size, asked.take(j));
    packed_masks_never_overlap(pen_after(size, asked.take(j)), size, asked[j].0, asked[j].1);
    if room_of(size, asked, i) is Some {
        lemma_room_stays(size, asked, i, j);
    }
}

/// A page's pixels after a mask was written at `x`, `y`: each whole row
/// that the data holds, and nothing else.
pub open spec fn drawn(
    pixels: Seq<u8>,
    size: u32,
    x: u32,
    y: u32,
    w: u32,
    h: u32,
    data: Seq<u8>,
) -> Seq<u8> {
    Seq::new(pixels.len(), |i: int| drawn_pixel(pixels, size, x, y, w, h, data, i))
}

/// One pixel after a mask was written.
pub open spec fn drawn_pixel(
    pixels: Seq<u8>,
    size: u32,
    x: u32,
    y: u32,
    w: u32,
    h: u32,
    data: Seq<u8>,
    i: int,
) -> u8 {
    let row = i / (size as int) - y;
    let col = i % (size as int) - x;
    if 0 <= row < h && 0 <= col < w && (row + 1) * w <= data.len() {
        data[row * w + col]
    } else {
        pixels[i]
    }
}

impl Page {
    /// The pixels, in contracts.
    pub closed spec fn pixels_view(&self) -> Seq<u8> {
        self.pixels@
    }

    /// Where the next mask goes.
    pub closed spec fn pen(&self) -> Pen {
        Pen { shelf_y: self.shelf_y, shelf_h: self.shelf_h, cursor_x: self.cursor_x }
    }

    /// The invariant of a page of edge `size`, whose pixels a vector can
    /// hold.
    pub open spec fn wf(&self, size: u32) -> bool {
        &&& size * size <= isize::MAX
        &&& pen_ok(self.pen(), size)
        &&& self.pixels_view().len() == size * size
    }

    /// An empty page of edge `size`.
    pub fn new(size: u32) -> (p: Page)
        requires
            size * size <= isize::MAX,
        ensures
            p.wf(size),
            p.pen() == (Pen { shelf_y: 0, shelf_h: 0, cursor_x: 0 }),
            p.pixels_view() == Seq::new((size * size) as nat, |i: int| 0u8),
    {
        let n: usize = size as usize * size as usize;
        let mut pixels: Vec<u8> = Vec::new();
        let mut i: usize = 0;
        while i < n
            invariant
                i <= n,
                pixels@.len() == i,
                forall|k: int| 0 <= k < i ==> pixels@[k] == 0,
            decreases n - i,
        {
            pixels.push(0);
            i += 1;
        }
        assert(pixels@ =~= Seq::new((size * size) as nat, |i: int| 0u8));
        Page { pixels, shelf_y: 0, shelf_h: 0, cursor_x: 0 }
    }

    /// Reserve a `w × h` rectangle, with one free pixel on the right and at
    /// the bottom.
    pub fn reserve(&mut self, size: u32, w: u32, h: u32) -> (r: Option<(u32, u32)>)
        requires
            old(self).wf(size),
        ensures
            final(self).wf(size),
            final(self).pixels_view() == old(self).pixels_view(),
            (r, final(self).pen()) == placed(old(self).pen(), size, w, h),
    {
        if w > size || h > size {
            return None;
        }
        proof {
            lemma_edge(size);
        }
        if self.cursor_x as u64 + w as u64 > size as u64 {
            self.shelf_y = self.shelf_y + self.shelf_h;
            self.shelf_h = 0;
            self.cursor_x = 0;
        }
        if self.shelf_y as u64 + h as u64 > size as u64 {
            return None;
        }
        let x: u32 = self.cursor_x;
        let y: u32 = self.shelf_y;
        self.cursor_x = self.cursor_x + w + 1;
        if self.shelf_h < h + 1 {
            self.shelf_h = h + 1;
        }
        Some((x, y))
    }

    /// Copy a mask into the page.
    pub fn write(&mut self, size: u32, x: u32, y: u32, w: u32, h: u32, data: &[u8])
        requires
            old(self).wf(size),
            x + w <= size,
            y + h <= size,
        ensures
            final(self).wf(size),
            final(self).pen() == old(self).pen(),
            final(self).pixels_view() == drawn(old(self).pixels_view(), size, x, y, w, h, data@),
    {
        let ghost start = self.pixels@;
        let mut row: u32 = 0;
        let mut src: usize = 0;
        let held: usize = data.len();
        while row < h && held - src >= w as usize
            invariant
                row <= h,
                size * size <= isize::MAX,
                x + w <= size,
                y + h <= size,
                src == row * w,
                held == data@.len(),
                src <= held,
                self.pen() == old(self).pen(),
                start == old(self).pixels@,
                start.len() == size * size,
                self.pixels@ == drawn(start, size, x, y, w, row, data@),
            decreases h - row,
        {
            let ghost before = self.pixels@;
            proof {
                lemma_row_start(size, (y + row) as int, x + w);
                assert((row + 1) * w == row * w + w) by (nonlinear_arith);
            }
            let dst: usize = (y as usize + row as usize) * size as usize + x as usize;
            let mut col: usize = 0;
            while col < w as usize
                invariant
                    col <= w,
                    row < h,
                    x + w <= size,
                    y + h <= size,
                    src == row * w,
                    held == data@.len(),
                    src + w <= held,
                    dst == (y + row) * size + x,
                    dst + w <= size * size,
                    size * size <= isize::MAX,
                    start.len() == size * size,
                    self.pen() == old(self).pen(),
                    self.pixels@.len() == start.len(),
                    before == drawn(start, size, x, y, w, row, data@),
                    forall|i: int|
                        0 <= i < start.len() ==> #[trigger] self.pixels@[i] == (if dst <= i < dst
                            + col {
                            data@[src + (i - dst)]
                        } else {
                            before[i]
                        }),
                decreases w - col,
            {
                self.pixels.set(dst + col, data[src + col]);
                col += 1;
            }
            proof {
                let next = drawn(start, size, x, y, w, (row + 1) as u32, data@);
                assert forall|i: int| 0 <= i < start.len() implies self.pixels@[i] == next[i] by {
                    lemma_row_of(size, x, y + row, w, i, dst as int);
                    assert((row + 1) * w == row * w + w) by (nonlinear_arith);
                    let r = i / (size as int) - y;
                    let c = i % (size as int) - x;
                    if dst <= i < dst + w {
                        assert(r == row && c == i - dst);
                    } else if 0 <= c < w {
                        assert(r != row);
                    }
                }
                assert(self.pixels@ =~= next);
            }
            src += w as usize;
            row += 1;
        }
        proof {
            let full = drawn(start, size, x, y, w, h, data@);
            let now = drawn(start, size, x, y, w, row, data@);
            assert forall|i: int| 0 <= i < start.len() implies now[i] == full[i] by {
                let r = i / (size as int) - y;
                if row <= r < h {
                    assert((r + 1) * w >= (row + 1) * w) by (nonlinear_arith)
                        requires
                            r >= row,
                            w >= 0,
                    ;
                    assert((row + 1) * w == row * w + w) by (nonlinear_arith);
                }
            }
            assert(now =~= full);
        }
    }
}

/// The edge of a page whose pixels a vector can hold is not the largest
/// number.
proof fn lemma_edge(size: u32)
    requires
        size * size <= isize::MAX,
    ensures
        size < u32::MAX,
{
    if size == u32::MAX {
        assert(size * size > 0x7fff_ffff_ffff_ffff) by (nonlinear_arith)
            requires
                size == u32::MAX,
        ;
    }
}

proof fn lemma_row_start(size: u32, row: int, end: int)
    requires
        0 <= row < size,
        0 <= end <= size,
    ensures
        0 <= row * size,
        row * size + end <= size * size,
{
    assert(row * size + size <= size * size) by (nonlinear_arith)
        requires
            0 <= row < size,
    ;
    assert(0 <= row * size) by (nonlinear_arith)
        requires
            0 <= row,
    ;
}

/// Which pixels a row of a rectangle covers.
proof fn lemma_row_of(size: u32, x: u32, row: int, w: u32, i: int, dst: int)
    requires
        0 < size,
        x + w <= size,
        0 <= row,
        0 <= i,
        dst == row * size + x,
    ensures
        dst <= i < dst + w <==> (i / (size as int) == row && x <= i % (size as int) < x + w),
        dst <= i < dst + w ==> i % (size as int) - x == i - dst,
{
    let s = size as int;
    lemma_fundamental_div_mod(i, s);
    lemma_mod_bound(i, s);
    if dst <= i < dst + w {
        let rem = i - row * s;
        assert(i == s * row + rem) by {
            lemma_mul_is_commutative(s, row);
        }
        lemma_fundamental_div_mod_converse(i, s, row, rem);
    }
    if i / s == row {
        lemma_mul_is_commutative(s, row);
    }
}

// ---------------------------------------------------------------------
// the atlas
// ---------------------------------------------------------------------

/// One cached entry: where the mask is, plus the frame it was last used in.
/// There is no mask of a glyph that rasterised to nothing; that is cached
/// too, so that a page full of spaces is not scaled once per glyph.
#[derive(Debug, Clone, Copy)]
pub struct Entry {
    /// Where the mask is.
    pub info: Option<MaskInfo>,
    /// The frame it was last used in.
    pub last_used: u64,
}

/// The number a key is stored under.
pub open spec fn packed_key(k: GlyphKey) -> int {
    ((k.font.0 * 65536 + k.glyph) * 0x1_0000_0000 + k.size_q) * 256 + k.subpx
}

proof fn lemma_packed_key(a: GlyphKey, b: GlyphKey)
    ensures
        packed_key(a) == packed_key(b) ==> a == b,
        0 <= packed_key(a) < 0x100_0000_0000_0000_0000_0000,
{
}

fn pack(k: GlyphKey) -> (n: u128)
    ensures
        n == packed_key(k),
{
    ((k.font.0 as u128 * 65536 + k.glyph as u128) * 0x1_0000_0000 + k.size_q as u128) * 256
        + k.subpx as u128
}

/// What a page holds, as mathematical values.
pub struct PageView {
    /// The pixels, row by row.
    pub pixels: Seq<u8>,
    /// Where the next mask goes.
    pub pen: Pen,
}

/// What a run of pages holds.
pub open spec fn pages_view(s: Seq<Page>) -> Seq<PageView> {
    s.map_values(|p: Page| PageView { pixels: p.pixels_view(), pen: p.pen() })
}

/// An empty page.
pub open spec fn blank() -> PageView {
    PageView {
        pixels: Seq::new((PAGE * PAGE) as nat, |i: int| 0u8),
        pen: Pen { shelf_y: 0, shelf_h: 0, cursor_x: 0 },
    }
}

/// The glyph atlas. It never evicts.
pub struct Atlas {
    pages: Vec<Page>,
    entries: HashMap<u128, Entry>,
    frame: u64,
    renders: u64,
}

/// What an [`Atlas`] holds, as mathematical values.
pub struct AtlasView {
    /// The pages.
    pub pages: Seq<PageView>,
    /// The cached glyphs.
    pub entries: Map<GlyphKey, Entry>,
    /// The frame stamp.
    pub frame: u64,
    /// How many glyphs were rendered.
    pub renders: u64,
}

impl View for Atlas {
    type V = AtlasView;

    closed spec fn view(&self) -> AtlasView {
        AtlasView {
            pages: pages_view(self.pages@),
            entries: Map::new(
                |k: GlyphKey| self.entries@.dom().contains(packed_key(k) as u128),
                |k: GlyphKey| self.entries@[packed_key(k) as u128],
            ),
            frame: self.frame,
            renders: self.renders,
        }
    }
}

/// Where a mask went, and the pages with room taken for it. The last page
/// is tried, and then a new one; a mask that is larger than a page goes
/// nowhere.
pub open spec fn roomed(pages: Seq<PageView>, w: u32, h: u32) -> (
    Option<(u32, u32, u32)>,
    Seq<PageView>,
) {
    let n = pages.len();
    let (at, pen) = placed(pages.last().pen, PAGE, w, h);
    if n > 0 && at is Some {
        (
            Some(((n - 1) as u32, (at->0).0, (at->0).1)),
            pages.update(n - 1, PageView { pen, ..pages.last() }),
        )
    } else {
        let tried = if n > 0 {
            pages.update(n - 1, PageView { pen, ..pages.last() })
        } else {
            pages
        };
        let (fresh, pen) = placed(blank().pen, PAGE, w, h);
        match fresh {
            Some(xy) => (
                Some((n as u32, xy.0, xy.1)),
                tried.push(PageView { pen, ..blank() }),
            ),
            None => (None, tried),
        }
    }
}

/// Where an image went, and the pages with it drawn. What is no mask, or
/// has no pixels, goes nowhere.
pub open spec fn packed(pages: Seq<PageView>, image: Option<Image>) -> (
    Option<MaskInfo>,
    Seq<PageView>,
) {
    match image {
        Some(i) => if !i.mask || i.w == 0 || i.h == 0 {
            (None, pages)
        } else {
            let (at, now) = roomed(pages, i.w, i.h);
            match at {
                Some((page, x, y)) => (
                    Some(MaskInfo { page, x, y, w: i.w, h: i.h, left: i.left, top: i.top }),
                    now.update(
                        page as int,
                        PageView {
                            pixels: drawn(
                                now[page as int].pixels,
                                PAGE,
                                x,
                                y,
                                i.w,
                                i.h,
                                i.data@,
                            ),
                            ..now[page as int]
                        },
                    ),
                ),
                None => (None, now),
            }
        },
        None => (None, pages),
    }
}

/// Whether pages are well-formed: full of pixels, and with the pen on them.
pub open spec fn pages_ok(pages: Seq<PageView>) -> bool {
    forall|i: int|
        0 <= i < pages.len() ==> (#[trigger] pages[i]).pixels.len() == PAGE * PAGE && pen_ok(
            pages[i].pen,
            PAGE,
        )
}

/// Whether a mask is where packing puts masks: behind the pen of its page.
pub open spec fn stowed(pages: Seq<PageView>, m: MaskInfo) -> bool {
    m.page < pages.len() && behind(
        pages[m.page as int].pen,
        PAGE,
        m.x as int,
        m.y as int,
        m.w as int,
        m.h as int,
    )
}

/// A mask that is in the atlas stays as it is: packing another image keeps
/// every pixel of it, and puts the new mask nowhere over it.
pub proof fn a_packed_mask_is_never_touched(
    pages: Seq<PageView>,
    image: Option<Image>,
    m: MaskInfo,
    i: int,
)
    requires
        pages_ok(pages),
        pages.len() < u32::MAX,
        stowed(pages, m),
        0 <= i < PAGE * PAGE,
        m.y <= i / (PAGE as int) < m.y + m.h,
        m.x <= i % (PAGE as int) < m.x + m.w,
    ensures
        packed(pages, image).1[m.page as int].pixels[i] == pages[m.page as int].pixels[i],
        stowed(packed(pages, image).1, m),
        packed(pages, image).0 matches Some(new) ==> stowed(packed(pages, image).1, new),
        pages_ok(packed(pages, image).1),
{
    lemma_packed(pages, image);
    let (at, now) = packed(pages, image);
    if let Some(img) = image {
        if img.mask && img.w > 0 && img.h > 0 {
            packed_masks_never_overlap(pages.last().pen, PAGE, img.w, img.h);
            packed_masks_never_overlap(blank().pen, PAGE, img.w, img.h);
        }
    }
}

proof fn lemma_packed(pages: Seq<PageView>, image: Option<Image>)
    requires
        pages_ok(pages),
        pages.len() < u32::MAX,
    ensures
        pages_ok(packed(pages, image).1),
        packed(pages, image).0 matches Some(new) ==> stowed(packed(pages, image).1, new),
        forall|m: MaskInfo| #[trigger] stowed(pages, m) ==> stowed(packed(pages, image).1, m),
        pages.len() <= packed(pages, image).1.len() <= pages.len() + 1,
{
    if let Some(img) = image {
        if img.mask && img.w > 0 && img.h > 0 {
            if pages.len() > 0 {
                assert(pages_ok(pages) ==> pen_ok(pages[pages.len() - 1].pen, PAGE));
                packed_masks_never_overlap(pages.last().pen, PAGE, img.w, img.h);
            }
            packed_masks_never_overlap(blank().pen, PAGE, img.w, img.h);
            assert(blank().pixels.len() == PAGE * PAGE);
        }
    }
}

/// The atlas after a cached glyph was asked for, which counts as a use.
pub open spec fn used(v: AtlasView, key: GlyphKey) -> AtlasView {
    if v.entries.dom().contains(key) {
        AtlasView {
            entries: v.entries.insert(
                key,
                Entry { info: v.entries[key].info, last_used: v.frame },
            ),
            ..v
        }
    } else {
        v
    }
}

/// The atlas after a glyph that was not cached was taken in.
pub open spec fn rendered(v: AtlasView, key: GlyphKey, image: Option<Image>) -> AtlasView {
    let (info, pages) = packed(v.pages, image);
    AtlasView {
        pages,
        entries: v.entries.insert(key, Entry { info, last_used: v.frame }),
        renders: (v.renders + 1) as u64,
        ..v
    }
}

/// The atlas in the next frame.
pub open spec fn next(v: AtlasView) -> AtlasView {
    AtlasView { frame: (v.frame + 1) as u64, ..v }
}

/// A call of an atlas.
pub enum Call {
    /// A glyph was asked for.
    Get(GlyphKey),
    /// A glyph was taken in.
    Render(GlyphKey, Option<Image>),
    /// A frame began.
    NextFrame,
}

/// The atlas after a call.
pub open spec fn called(v: AtlasView, call: Call) -> AtlasView {
    match call {
        Call::Get(key) => used(v, key),
        Call::Render(key, image) => rendered(v, key, image),
        Call::NextFrame => next(v),
    }
}

/// Whether a call can be made: what is taken in is not cached yet, and there
/// is a number for one more page.
pub open spec fn callable(v: AtlasView, call: Call) -> bool {
    match call {
        Call::Render(key, _) => !v.entries.dom().contains(key) && v.pages.len() < u32::MAX,
        _ => true,
    }
}

/// The atlas after a run of calls.
pub open spec fn after_calls(v: AtlasView, calls: Seq<Call>) -> AtlasView
    decreases calls.len(),
{
    if calls.len() == 0 {
        v
    } else {
        called(after_calls(v, calls.drop_last()), calls.last())
    }
}

/// Whether every call of a run can be made when its turn comes.
pub open spec fn all_callable(v: AtlasView, calls: Seq<Call>) -> bool {
    forall|i: int|
        0 <= i < calls.len() ==> callable(after_calls(v, calls.take(i)), #[trigger] calls[i])
}

/// Whether the pages are well-formed and every cached mask is stowed.
pub open spec fn all_stowed(v: AtlasView) -> bool {
    pages_ok(v.pages) && forall|k: GlyphKey| #[trigger]
        v.entries.dom().contains(k) ==> (v.entries[k].info matches Some(m) ==> stowed(v.pages, m))
}

proof fn lemma_called(v: AtlasView, call: Call, key: GlyphKey)
    requires
        all_stowed(v),
        callable(v, call),
        v.entries.dom().contains(key),
    ensures
        all_stowed(called(v, call)),
        called(v, call).entries.dom().contains(key),
        called(v, call).entries[key].info == v.entries[key].info,
        v.entries[key].info matches Some(m) ==> forall|i: int|
            0 <= i < PAGE * PAGE && m.y <= i / (PAGE as int) < m.y + m.h && m.x <= i % (PAGE as int)
                < m.x + m.w ==> called(v, call).pages[m.page as int].pixels[i] == #[trigger]
                v.pages[m.page as int].pixels[i],
{
    if let Call::Render(k, image) = call {
        lemma_packed(v.pages, image);
        let now = called(v, call);
        assert forall|o: GlyphKey| #[trigger] now.entries.dom().contains(o) implies (
        now.entries[o].info matches Some(m) ==> stowed(now.pages, m)) by {
            if o != k {
                assert(v.entries.dom().contains(o));
            }
        }
        if let Some(m) = v.entries[key].info {
            assert forall|i: int|
                0 <= i < PAGE * PAGE && m.y <= i / (PAGE as int) < m.y + m.h && m.x <= i % (
                PAGE as int) < m.x + m.w implies now.pages[m.page as int].pixels[i] == #[trigger]
                v.pages[m.page as int].pixels[i] by {
                a_packed_mask_is_never_touched(v.pages, image, m, i);
            }
        }
    } else {
        assert forall|o: GlyphKey| #[trigger]
            called(v, call).entries.dom().contains(o) implies (called(v, call).entries[o].info matches Some(
            m,
        ) ==> stowed(called(v, call).pages, m)) by {
            assert(v.entries.dom().contains(o));
        }
    }
}

/// A glyph that is cached comes back the same, with every pixel of its mask
/// as it was, whatever is asked for and taken in meanwhile.
pub proof fn a_cached_glyph_stays(v: AtlasView, calls: Seq<Call>, key: GlyphKey)
    requires
        all_stowed(v),
        all_callable(v, calls),
        v.entries.dom().contains(key),
    ensures
        all_stowed(after_calls(v, calls)),
        after_calls(v, calls).entries.dom().contains(key),
        after_calls(v, calls).entries[key].info == v.entries[key].info,
        v.entries[key].info matches Some(m) ==> forall|i: int|
            0 <= i < PAGE * PAGE && m.y <= i / (PAGE as int) < m.y + m.h && m.x <= i % (PAGE as int)
                < m.x + m.w ==> after_calls(v, calls).pages[m.page as int].pixels[i] == #[trigger]
                v.pages[m.page as int].pixels[i],
    decreases calls.len(),
{
    if calls.len() > 0 {
        let head = calls.drop_last();
        let n = head.len() as int;
        assert forall|i: int| 0 <= i < head.len() implies callable(
            after_calls(v, head.take(i)),
            #[trigger] head[i],
        ) by {
            assert(head.take(i) =~= calls.take(i));
            assert(calls[i] == head[i]);
        }
        a_cached_glyph_stays(v, head, key);
        assert(calls.take(n) =~= head);
        assert(callable(after_calls(v, head), calls[n]));
        let mid = after_calls(v, head);
        lemma_called(mid, calls.last(), key);
        if let Some(m) = v.entries[key].info {
            assert forall|i: int|
                0 <= i < PAGE * PAGE && m.y <= i / (PAGE as int) < m.y + m.h && m.x <= i % (
                PAGE as int) < m.x + m.w implies after_calls(v, calls).pages[m.page as int].pixels[i]
                == #[trigger] v.pages[m.page as int].pixels[i] by {
                assert(mid.pages[m.page as int].pixels[i] == v.pages[m.page as int].pixels[i]);
            }
        }
    }
}

impl Atlas {
    /// The invariant: the pages are well-formed, every mask is stowed, and
    /// each cached glyph was rendered once.
    pub closed spec fn wf(&self) -> bool {
        &&& pages_ok(self@.pages)
        &&& self.pages@.len() <= u32::MAX
        &&& self.renders == self.entries@.len()
        &&& self@.entries.dom().finite()
        &&& self.renders == self@.entries.len()
        &&& forall|n: u128| #[trigger]
            self.entries@.dom().contains(n) ==> (self.entries@[n].info matches Some(m) ==> stowed(
                self@.pages,
                m,
            ))
    }

    /// What the invariant says: every cached mask is on a page, and as many
    /// glyphs were rendered as are cached.
    pub proof fn every_mask_is_stowed(&self)
        requires
            self.wf(),
        ensures
            all_stowed(self@),
            self@.renders == self@.entries.len(),
    {
        assert forall|k: GlyphKey| #[trigger]
            self@.entries.dom().contains(k) implies (self@.entries[k].info matches Some(m)
            ==> stowed(self@.pages, m)) by {
            lemma_packed_key(k, k);
        }
    }

    /// An empty atlas with no pages allocated.
    pub fn new() -> (a: Atlas)
        ensures
            a.wf(),
            a@ == (AtlasView {
                pages: Seq::empty(),
                entries: Map::empty(),
                frame: 0,
                renders: 0,
            }),
    {
        let a = Atlas { pages: Vec::new(), entries: HashMap::new(), frame: 0, renders: 0 };
        assert(a@.pages =~= Seq::<PageView>::empty());
        assert(a@.entries =~= Map::<GlyphKey, Entry>::empty());
        a
    }

    /// The mask for `key`, if the glyph is cached: `Some(None)` for one that
    /// has no pixels. This counts as a use of it.
    pub fn get(&mut self, key: GlyphKey) -> (r: Option<Option<MaskInfo>>)
        requires
            old(self).wf(),
        ensures
            final(self).wf(),
            r == (if old(self)@.entries.dom().contains(key) {
                Some(old(self)@.entries[key].info)
            } else {
                None
            }),
            final(self)@ == used(old(self)@, key),
    {
        let n: u128 = pack(key);
        proof {
            assert forall|k: GlyphKey| packed_key(k) as u128 == n implies k == key by {
                lemma_packed_key(k, key);
            }
            lemma_packed_key(key, key);
        }
        let found = match self.entries.get(&n) {
            Some(e) => *e,
            None => {
                return None;
            },
        };
        let ghost before = self@;
        let e = Entry { info: found.info, last_used: self.frame };
        self.entries.insert(n, e);
        proof {
            assert forall|k: GlyphKey| #[trigger] packed_key(k) == n implies k == key by {
                lemma_packed_key(k, key);
            }
            assert forall|k: GlyphKey| 0 <= #[trigger] packed_key(k) <= u128::MAX by {
                lemma_packed_key(k, k);
            }
            assert(self@.entries =~= before.entries.insert(key, e));
        }
        Some(found.info)
    }

    /// Take in what the rasteriser made of a glyph that is not cached: pack
    /// it, and cache that it was rendered even if there is nothing to pack.
    pub fn render(&mut self, key: GlyphKey, image: Option<Image>) -> (r: Option<MaskInfo>)
        requires
            old(self).wf(),
            !old(self)@.entries.dom().contains(key),
            old(self)@.renders < u64::MAX,
            old(self)@.pages.len() < u32::MAX,
        ensures
            final(self).wf(),
            r == packed(old(self)@.pages, image).0,
            final(self)@ == rendered(old(self)@, key, image),
    {
        let ghost before = self@;
        let ghost was = self.entries@;
        proof {
            lemma_packed(before.pages, image);
        }
        let info = self.pack_image(&image);
        let n: u128 = pack(key);
        let e = Entry { info, last_used: self.frame };
        proof {
            lemma_packed_key(key, key);
            assert(!was.dom().contains(n));
        }
        self.entries.insert(n, e);
        self.renders = self.renders + 1;
        proof {
            assert forall|k: GlyphKey| #[trigger] packed_key(k) == n implies k == key by {
                lemma_packed_key(k, key);
            }
            assert forall|k: GlyphKey| 0 <= #[trigger] packed_key(k) <= u128::MAX by {
                lemma_packed_key(k, k);
            }
            assert(self@.entries =~= before.entries.insert(key, e));
        }
        info
    }

    fn pack_image(&mut self, image: &Option<Image>) -> (r: Option<MaskInfo>)
        requires
            pages_ok(old(self)@.pages),
            old(self)@.pages.len() < u32::MAX,
        ensures
            (r, final(self)@.pages) == packed(old(self)@.pages, *image),
            final(self).entries == old(self).entries,
            final(self).frame == old(self).frame,
            final(self).renders == old(self).renders,
    {
        let img = match image {
            Some(i) => i,
            None => {
                return None;
            },
        };
        if !img.mask || img.w == 0 || img.h == 0 {
            return None;
        }
        let (page, x, y) = match self.room(img.w, img.h) {
            Some(p) => p,
            None => {
                return None;
            },
        };
        let ghost now = self@.pages;
        assert(now[page as int].pixels.len() == PAGE * PAGE);
        let p = &mut self.pages[page as usize];
        p.write(PAGE, x, y, img.w, img.h, img.data.as_slice());
        assert(self@.pages =~= packed(old(self)@.pages, *image).1);
        Some(MaskInfo { page, x, y, w: img.w, h: img.h, left: img.left, top: img.top })
    }

    /// Find room for a `w × h` mask, opening a page when none fits.
    fn room(&mut self, w: u32, h: u32) -> (r: Option<(u32, u32, u32)>)
        requires
            pages_ok(old(self)@.pages),
            old(self)@.pages.len() < u32::MAX,
        ensures
            (r, final(self)@.pages) == roomed(old(self)@.pages, w, h),
            pages_ok(final(self)@.pages),
            final(self).entries == old(self).entries,
            final(self).frame == old(self).frame,
            final(self).renders == old(self).renders,
            r matches Some(at) ==> at.0 < final(self)@.pages.len() && at.1 + w <= PAGE && at.2 + h
                <= PAGE,
    {
        let n: usize = self.pages.len();
        let ghost before = self@.pages;
        proof {
            if n > 0 {
                assert(pen_ok(before[n - 1].pen, PAGE));
                packed_masks_never_overlap(before.last().pen, PAGE, w, h);
            }
            packed_masks_never_overlap(blank().pen, PAGE, w, h);
        }
        if n > 0 {
            let last = &mut self.pages[n - 1];
            assert(before[n - 1].pixels == last.pixels_view() && before[n - 1].pen == last.pen());
            if let Some((x, y)) = last.reserve(PAGE, w, h) {
                assert(self@.pages =~= roomed(before, w, h).1);
                return Some(((n - 1) as u32, x, y));
            }
        }
        let ghost tried = self@.pages;
        proof {
            if n > 0 {
                assert(tried =~= before.update(
                    n - 1,
                    PageView { pen: placed(before.last().pen, PAGE, w, h).1, ..before.last() },
                ));
            } else {
                assert(tried =~= before);
            }
        }
        let mut page = Page::new(PAGE);
        match page.reserve(PAGE, w, h) {
            Some((x, y)) => {
                self.pages.push(page);
                assert(self@.pages =~= roomed(before, w, h).1);
                Some((n as u32, x, y))
            },
            None => None,
        }
    }

    /// A page's pixels, row by row.
    pub fn page(&self, index: u32) -> (r: Option<&[u8]>)
        ensures
            match r {
                Some(p) => index < self@.pages.len() && p@ == self@.pages[index as int].pixels,
                None => index >= self@.pages.len(),
            },
    {
        if (index as usize) < self.pages.len() {
            Some(self.pages[index as usize].pixels.as_slice())
        } else {
            None
        }
    }

    /// Number of pages allocated.
    pub fn page_count(&self) -> (n: usize)
        ensures
            n == self@.pages.len(),
    {
        self.pages.len()
    }

    /// Number of cached entries, including glyphs that rasterised to
    /// nothing.
    pub fn glyph_count(&self) -> (n: usize)
        requires
            self.wf(),
        ensures
            n == self@.entries.len(),
    {
        self.entries.len()
    }

    /// Total rasterisations performed: the miss counter.
    pub fn renders(&self) -> (n: u64)
        ensures
            n == self@.renders,
    {
        self.renders
    }

    /// Bump the frame stamp. Call once per frame.
    pub fn next_frame(&mut self)
        requires
            old(self).wf(),
            old(self)@.frame < u64::MAX,
        ensures
            final(self).wf(),
            final(self)@ == next(old(self)@),
    {
        self.frame = self.frame + 1;
        assert(self@.entries =~= old(self)@.entries);
    }
}

} // verus!
