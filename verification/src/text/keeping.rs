//! What the caches of font files and of glyphs keep, and what they let go.

use vstd::prelude::*;

use crate::text::atlas::{
    drawn, drawn_pixel, packed, packed_key, packed_masks_never_overlap, pages_ok, pen_ok, placed,
    rendered, roomed, used, AtlasView, GlyphKey, Image, MaskInfo, PageView, Pen, PAGE,
};
use crate::text::cache::{
    distinct, fresh, kept_fresh, lemma_oldest, lemma_slot, lemma_total_remove, lemma_touched,
    lemma_trimmed_part, oldest, sane, swept, taken_in, the_newcomer_stays, the_oldest_go_first,
    total, touched, trimmed, CacheView, EntryView,
};
use crate::text::db::{asked_for, ingested, path_of_face, DbView, FontId};
use crate::text::index::IndexView;

verus! {

// ---------------------------------------------------------------------
// files
// ---------------------------------------------------------------------

/// The files in two caches take as many bytes as those of the one and those
/// of the other, and one file as many as it has.
pub proof fn sizes_add_up(a: Seq<EntryView>, b: Seq<EntryView>, e: EntryView)
    ensures
        total(a + b) == total(a) + total(b),
        total(seq![e]) == e.bytes.len(),
    decreases b.len(),
{
    let one = seq![e];
    assert(one.drop_last() =~= Seq::empty());
    assert(total(one.drop_last()) == 0);
    if b.len() == 0 {
        assert(a + b =~= a);
    } else {
        sizes_add_up(a, b.drop_last(), e);
        assert((a + b).drop_last() =~= a + b.drop_last());
        assert((a + b).last() == b.last());
    }
}

/// A file that goes was used before every one that stays and is not spared;
/// among those used at once, the one with the lower number goes.
pub proof fn the_least_recently_used_goes(
    s: Seq<EntryView>,
    limit: nat,
    spare: Option<u32>,
    gone: EntryView,
    stays: EntryView,
)
    requires
        distinct(s),
        s.contains(gone),
        !trimmed(s, limit, spare).contains(gone),
        trimmed(s, limit, spare).contains(stays),
        spare != Some(stays.file),
    ensures
        gone.last_used < stays.last_used || gone.last_used == stays.last_used && gone.file
            < stays.file,
{
    the_oldest_go_first(s, limit, spare, gone, stays);
}

/// Nothing goes where everything has room, and no more goes than has to: with
/// one of those that went, there would be too much again.
pub proof fn no_more_goes_than_has_to(s: Seq<EntryView>, limit: nat, spare: Option<u32>)
    ensures
        total(s) <= limit ==> trimmed(s, limit, spare) == s,
        trimmed(s, limit, spare) != s ==> exists|e: EntryView|
            #[trigger] s.contains(e) && total(trimmed(s, limit, spare)) + e.bytes.len() > limit,
    decreases s.len(),
{
    if total(s) > limit {
        lemma_oldest(s, spare);
        if let Some(i) = oldest(s, spare) {
            let t = s.remove(i);
            no_more_goes_than_has_to(t, limit, spare);
            lemma_total_remove(s, i);
            if trimmed(t, limit, spare) != t {
                let e = choose|e: EntryView|
                    #[trigger] t.contains(e) && total(trimmed(t, limit, spare)) + e.bytes.len()
                        > limit;
                let k = choose|k: int| 0 <= k < t.len() && t[k] == e;
                assert(s[if k < i {
                    k
                } else {
                    k + 1
                }] == e);
                assert(s.contains(e));
            } else {
                assert(s.contains(s[i]));
            }
        }
    }
}

/// A sweep keeps what was used in the frame it is made in, in its order, and
/// nothing else.
pub proof fn a_sweep_keeps_what_is_used(s: Seq<EntryView>, frame: u64, e: EntryView)
    requires
        forall|k: int| 0 <= k < s.len() ==> (#[trigger] s[k]).last_used <= frame,
    ensures
        kept_fresh(s, frame).contains(e) <==> s.contains(e) && e.last_used == frame,
        s.len() > 0 ==> kept_fresh(s, frame) == kept_fresh(s.drop_last(), frame) + (
        if s.last().last_used == frame {
            seq![s.last()]
        } else {
            Seq::empty()
        }),
    decreases s.len(),
{
    let all = kept_fresh(s, frame);
    if s.len() > 0 {
        let rest = s.drop_last();
        assert forall|k: int| 0 <= k < rest.len() implies (#[trigger] rest[k]).last_used <= frame by {
            assert(rest[k] == s[k]);
        }
        a_sweep_keeps_what_is_used(rest, frame, e);
        let head = kept_fresh(rest, frame);
        assert(fresh(s.last(), frame) <==> s.last().last_used == frame);
        if fresh(s.last(), frame) {
            assert(all =~= head + seq![s.last()]);
            assert(all[head.len() as int] == s.last());
        } else {
            assert(all =~= head + Seq::empty());
        }
        if all.contains(e) {
            let k = choose|k: int| 0 <= k < all.len() && all[k] == e;
            if k < head.len() {
                assert(head[k] == e);
                let j = choose|j: int| 0 <= j < rest.len() && rest[j] == e;
                assert(s[j] == e);
            } else {
                assert(s[s.len() - 1] == e);
            }
        }
        if s.contains(e) && e.last_used == frame {
            let k = choose|k: int| 0 <= k < s.len() && s[k] == e;
            if k < rest.len() {
                assert(rest[k] == e);
                let j = choose|j: int| 0 <= j < head.len() && head[j] == e;
                assert(all[j] == e);
            } else {
                assert(all[head.len() as int] == e);
            }
        }
    }
}

/// A file that is asked for counts as used now; nothing else changes, and
/// where it is not kept nothing does.
pub proof fn asking_for_a_file_is_using_it(c: CacheView, file: u32, k: int)
    requires
        distinct(c.entries),
        0 <= k < c.entries.len(),
    ensures
        touched(c, file) == (CacheView { entries: touched(c, file).entries, ..c }),
        touched(c, file).entries.len() == c.entries.len(),
        ({
            let was = c.entries[k];
            let now = touched(c, file).entries[k];
            &&& now.file == was.file && now.bytes == was.bytes
            &&& was.file == file ==> now.last_used == c.frame
            &&& was.file != file ==> now == was
        }),
{
    lemma_slot(c.entries, file);
}

/// A file that was read is kept with what was read, as used now, whatever
/// else goes for it; it counts as one load, and each that goes as one
/// eviction.
pub proof fn a_file_that_was_read_is_kept(c: CacheView, file: u32, bytes: Seq<u8>)
    requires
        c.loads < u64::MAX,
        c.evictions + c.entries.len() + 1 <= u64::MAX,
    ensures
        ({
            let now = taken_in(c, file, bytes);
            &&& now.entries.contains(EntryView { file, bytes, last_used: c.frame })
            &&& forall|e: EntryView| #[trigger]
                now.entries.contains(e) ==> c.entries.contains(e) || e == (EntryView {
                    file,
                    bytes,
                    last_used: c.frame,
                })
            &&& now.loads == c.loads + 1
            &&& now.evictions + now.entries.len() == c.evictions + c.entries.len() + 1
            &&& now.releases == c.releases && now.frame == c.frame && now.limit == c.limit
            &&& total(c.entries) + bytes.len() <= c.limit ==> now.entries == c.entries.push(
                EntryView { file, bytes, last_used: c.frame },
            )
        }),
{
    let e = EntryView { file, bytes, last_used: c.frame };
    let all = c.entries.push(e);
    assert(all[c.entries.len() as int] == e);
    the_newcomer_stays(all, c.limit as nat, e);
    lemma_trimmed_part(all, c.limit as nat, Some(file));
    assert(all.drop_last() =~= c.entries);
    let now = taken_in(c, file, bytes);
    assert forall|x: EntryView| #[trigger] now.entries.contains(x) implies c.entries.contains(x) || x
        == e by {
        let k = choose|k: int| 0 <= k < all.len() && all[k] == x;
        if k < c.entries.len() {
            assert(c.entries[k] == x);
        }
    }
}

/// A face that was asked for keeps its file through a sweep in the same frame,
/// with what was read of it; asking changes no face and no path, and a face
/// there is not changes nothing.
pub proof fn a_face_in_use_keeps_its_file(v: DbView, font: FontId, k: int)
    requires
        sane(v.cache),
        0 <= k < v.cache.entries.len(),
        v.cache.releases + v.cache.entries.len() <= u64::MAX,
    ensures
        asked_for(v, font).faces == v.faces && asked_for(v, font).files == v.files,
        font.0 >= v.faces.len() ==> asked_for(v, font) == v,
        font.0 < v.faces.len() && v.cache.entries[k].file == v.faces[font.0 as int].file ==> swept(
            asked_for(v, font).cache,
        ).entries.contains(EntryView { last_used: v.cache.frame, ..v.cache.entries[k] }),
{
    if font.0 < v.faces.len() && v.cache.entries[k].file == v.faces[font.0 as int].file {
        let file = v.faces[font.0 as int].file;
        let c = asked_for(v, font).cache;
        asking_for_a_file_is_using_it(v.cache, file, k);
        lemma_touched(v.cache, file);
        let e = c.entries[k];
        assert(c.entries.contains(e));
        a_sweep_keeps_what_is_used(c.entries, c.frame, e);
    }
}

/// A database that was just filled has every face and every file of the
/// index, and none of them is loaded; a face is in the file that it names.
pub proof fn a_new_database_has_nothing_loaded(
    ix: IndexView,
    from_cache: bool,
    scan_nanos: u64,
    limit: usize,
    i: int,
)
    requires
        0 <= i < ix.faces.len() <= 0x1_0000_0000,
    ensures
        ({
            let v = ingested(ix, from_cache, scan_nanos, limit);
            &&& v.faces == ix.faces
            &&& v.files.len() == ix.files.len()
            &&& v.cache.entries.len() == 0 && v.cache.loads == 0 && v.cache.limit == limit
            &&& sane(v.cache)
            &&& v.from_cache == from_cache && v.scan_nanos == scan_nanos
            &&& ix.faces[i].file < ix.files.len() ==> path_of_face(v, FontId(i as u32)) == Some(
                ix.files[ix.faces[i].file as int].path,
            )
            &&& ix.faces[i].file >= ix.files.len() ==> path_of_face(v, FontId(i as u32)) is None
        }),
{
}

// ---------------------------------------------------------------------
// glyphs
// ---------------------------------------------------------------------

/// A mask has room on an empty page exactly where it is no larger than the
/// page, and goes to its corner.
pub proof fn an_empty_page_has_room(size: u32, w: u32, h: u32)
    ensures
        ({
            let pen = Pen { shelf_y: 0, shelf_h: 0, cursor_x: 0 };
            &&& w <= size && h <= size ==> placed(pen, size, w, h).0 == Some((0u32, 0u32))
            &&& w > size || h > size ==> placed(pen, size, w, h) == (None::<(u32, u32)>, pen)
        }),
{
}

/// A mask goes beside the last one, a pixel apart, where there is room on the
/// shelf; else below the highest of the shelf, a pixel apart, at the left.
pub proof fn masks_stand_side_by_side(p: Pen, size: u32, w: u32, h: u32, w2: u32, h2: u32)
    requires
        size < u32::MAX,
        pen_ok(p, size),
        placed(p, size, w, h).0 is Some,
        h2 <= size,
    ensures
        ({
            let at = placed(p, size, w, h).0->0;
            let q = placed(p, size, w, h).1;
            let then = placed(q, size, w2, h2).0;
            &&& q.shelf_y == at.1
            &&& q.shelf_h > h
            &&& at.0 == 0 ==> at.1 == p.shelf_y || at.1 == p.shelf_y + p.shelf_h
            &&& at.0 + w + 1 + w2 <= size && at.1 + h2 <= size ==> then == Some(
                ((at.0 + w + 1) as u32, at.1),
            )
            &&& at.0 + w + 1 + w2 > size && w2 <= size && at.1 + q.shelf_h + h2 <= size ==> then
                == Some((0u32, (at.1 + q.shelf_h) as u32))
            &&& at.1 == p.shelf_y && at.0 == p.cursor_x && h < p.shelf_h ==> q.shelf_h == p.shelf_h
            &&& q.shelf_h == h + 1 || (q.shelf_h == p.shelf_h && at.1 == p.shelf_y)
        }),
{
}

/// A mask goes to the last page where that has room, and to the corner of a
/// new page where it has none; one that is larger than a page goes nowhere.
pub proof fn a_full_page_is_followed_by_another(pages: Seq<PageView>, w: u32, h: u32)
    requires
        pages.len() < u32::MAX,
    ensures
        ({
            let (at, now) = roomed(pages, w, h);
            &&& at is Some <==> w <= PAGE && h <= PAGE
            &&& pages.len() <= now.len() <= pages.len() + 1
            &&& forall|i: int| 0 <= i < pages.len() ==> (#[trigger] now[i]).pixels == pages[i].pixels
            &&& forall|i: int| 0 <= i < pages.len() - 1 ==> (#[trigger] now[i]) == pages[i]
            &&& at is Some ==> (at->0).0 == now.len() - 1
            &&& pages.len() > 0 && placed(pages.last().pen, PAGE, w, h).0 is Some ==> now.len()
                == pages.len() && at == Some(
                (
                    (pages.len() - 1) as u32,
                    (placed(pages.last().pen, PAGE, w, h).0->0).0,
                    (placed(pages.last().pen, PAGE, w, h).0->0).1,
                ),
            )
            &&& now.len() > pages.len() ==> at == Some((pages.len() as u32, 0u32, 0u32))
                && now.last().pixels == Seq::new((PAGE * PAGE) as nat, |i: int| 0u8)
            &&& at is None ==> now.len() == pages.len()
        }),
{
    an_empty_page_has_room(PAGE, w, h);
}

/// What a glyph looks like can be read back from where it was put; the rest
/// of the page, and every other page, is as it was.
pub proof fn a_mask_can_be_read_back(pages: Seq<PageView>, image: Image, row: int, col: int)
    requires
        pages_ok(pages),
        pages.len() < u32::MAX,
        image.mask,
        0 <= row < image.h,
        0 <= col < image.w,
        image.data@.len() == image.w * image.h,
        image.w <= PAGE,
        image.h <= PAGE,
    ensures
        ({
            let (at, now) = packed(pages, Some(image));
            let m = at->0;
            &&& at is Some
            &&& m.page < now.len()
            &&& m.w == image.w && m.h == image.h && m.left == image.left && m.top == image.top
            &&& m.x + m.w <= PAGE && m.y + m.h <= PAGE
            &&& now[m.page as int].pixels[(m.y + row) * PAGE + (m.x + col)] == image.data@[row
                * image.w + col]
        }),
{
    let (at, now) = roomed(pages, image.w, image.h);
    a_full_page_is_followed_by_another(pages, image.w, image.h);
    let (page, x, y) = at->0;
    if pages.len() > 0 {
        packed_masks_never_overlap(
            pages.last().pen,
            PAGE,
            image.w,
            image.h,
        );
    }
    let k = (y + row) * PAGE + (x + col);
    let before = now[page as int].pixels;
    assert(before.len() == PAGE * PAGE);
    lemma_at(y + row, x + col);
    lemma_inside(row, col, image.w as int, image.h as int);
    assert(drawn(before, PAGE, x, y, image.w, image.h, image.data@)[k] == drawn_pixel(
        before,
        PAGE,
        x,
        y,
        image.w,
        image.h,
        image.data@,
        k,
    ));
}

proof fn lemma_at(r: int, c: int)
    requires
        0 <= r < PAGE,
        0 <= c < PAGE,
    ensures
        0 <= r * PAGE + c < PAGE * PAGE,
        (r * PAGE + c) / (PAGE as int) == r,
        (r * PAGE + c) % (PAGE as int) == c,
{
}

proof fn lemma_inside(row: int, col: int, w: int, h: int)
    by (nonlinear_arith)
    requires
        0 <= row < h,
        0 <= col < w,
    ensures
        (row + 1) * w <= w * h,
        0 <= row * w + col < w * h,
{
}

/// An image that is no mask, or that has nothing in it, takes no room.
pub proof fn nothing_takes_no_room(pages: Seq<PageView>, image: Image)
    requires
        !image.mask || image.w == 0 || image.h == 0,
    ensures
        packed(pages, Some(image)) == (None::<MaskInfo>, pages),
        packed(pages, None) == (None::<MaskInfo>, pages),
{
}

/// A glyph that was rendered is found again, with where it was put; every
/// other glyph stays as it was, and finding one changes nothing but when it
/// was last used.
pub proof fn a_rendered_glyph_is_found_again(
    v: AtlasView,
    key: GlyphKey,
    image: Option<Image>,
    other: GlyphKey,
)
    requires
        !v.entries.dom().contains(key),
        v.renders < u64::MAX,
    ensures
        ({
            let now = rendered(v, key, image);
            &&& now.entries.dom().contains(key)
            &&& now.entries[key].info == packed(v.pages, image).0
            &&& now.entries[key].last_used == v.frame
            &&& now.pages == packed(v.pages, image).1
            &&& now.renders == v.renders + 1
            &&& other != key ==> (now.entries.dom().contains(other) <==> v.entries.dom().contains(
                other,
            ))
            &&& other != key && v.entries.dom().contains(other) ==> now.entries[other]
                == v.entries[other]
        }),
        ({
            let now = used(v, other);
            &&& now == (AtlasView { entries: now.entries, ..v })
            &&& now.entries.dom() == v.entries.dom()
            &&& v.entries.dom().contains(other) ==> now.entries[other].info == v.entries[other].info
                && now.entries[other].last_used == v.frame
        }),
{
    assert(used(v, other).entries.dom() =~= v.entries.dom());
}

/// Two glyphs are told apart wherever they differ, in the font, the glyph,
/// the size or the part of a pixel they are off.
pub proof fn glyphs_are_told_apart(a: GlyphKey, b: GlyphKey)
    ensures
        packed_key(a) == packed_key(b) ==> a == b,
        0 <= packed_key(a) <= u128::MAX,
{
}

} // verus!
