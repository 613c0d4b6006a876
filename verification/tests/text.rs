//! Fonts, their index and cache, the glyph atlas and the text store.

use std::sync::Arc;

use nitro::text::atlas::{Atlas, GlyphKey, Image, MaskInfo, Page, PAGE};
use nitro::text::cache::Cache;
use nitro::text::db::{attr_distance, Family, FontDb, FontId, Lookup, TextStyle};
use nitro::text::index::{
    cache_path, decode, encode, load, DirRecord, FaceRecord, FileRecord, Index,
};
use nitro::text::paths::in_order;
use nitro::text::scan::{choose_family, descends, font_dirs, is_font_path, Started};
use nitro::text::sfnt::{face_count, face_is_readable, Asked};
use nitro::text::shaping::{
    expand_tabs, pick_font, push_cursors, split_logical_lines, split_runs, Face, Has, Link, Run,
};
use nitro::text::store::TextStore;
use nitro::text::wrap::{detect_script, first_strong, ink_end, one_line, Wrap};

fn record(weight: u16, italic: bool, stretch: u16) -> FaceRecord {
    FaceRecord {
        file: 0,
        index: 0,
        family: "Test".to_owned(),
        weight,
        stretch,
        italic,
        monospace: false,
    }
}

fn want(weight: u16, italic: bool) -> TextStyle<f32> {
    TextStyle {
        family: Family::Sans,
        size_px: 14.0,
        weight,
        italic,
    }
}

// -- the atlas ---------------------------------------------------------

#[test]
fn shelf_packing_fills_rows_then_moves_down() {
    let mut page = Page::new(64);
    let a = page.reserve(64, 10, 10).unwrap();
    let b = page.reserve(64, 10, 10).unwrap();
    assert_eq!(a, (0, 0));
    assert_eq!(b, (11, 0)); // 1 px padding
    // Fill the rest of the shelf: 0, 11, 22, 33, 44 fit; 55 + 10 > 64.
    for _ in 0..3 {
        page.reserve(64, 10, 10).unwrap();
    }
    let next = page.reserve(64, 10, 10).unwrap();
    assert_eq!(next, (0, 11));
}

#[test]
fn a_page_reports_full_when_it_cannot_fit() {
    let mut page = Page::new(16);
    assert!(page.reserve(16, 20, 4).is_none());
    assert!(page.reserve(16, 16, 16).is_some());
    assert!(page.reserve(16, 16, 16).is_none());
}

fn key(glyph: u16) -> GlyphKey {
    GlyphKey {
        font: FontId(1),
        glyph,
        size_q: 896,
        subpx: 0,
    }
}

fn mask(w: u32, h: u32, ink: u8) -> Image {
    Image {
        mask: true,
        w,
        h,
        left: 1,
        top: 2,
        data: vec![ink; (w * h) as usize],
    }
}

#[test]
fn a_mask_is_rendered_once_and_found_again() {
    let mut atlas = Atlas::new();
    assert_eq!(atlas.get(key(7)), None);
    let info = atlas.render(key(7), Some(mask(3, 2, 9))).unwrap();
    assert_eq!(atlas.get(key(7)), Some(Some(info)));
    assert_eq!(atlas.renders(), 1);
    assert_eq!(atlas.glyph_count(), 1);
    assert_eq!(atlas.page_count(), 1);
    let page = atlas.page(info.page).unwrap();
    let at = (info.y * PAGE + info.x) as usize;
    assert_eq!(&page[at..at + 3], &[9, 9, 9]);
    assert_eq!(&page[at + PAGE as usize..at + PAGE as usize + 3], &[9, 9, 9]);
    assert!(atlas.page(1).is_none());
}

#[test]
fn a_cached_glyph_comes_back_untouched() {
    let mut atlas = Atlas::new();
    let info = atlas.render(key(7), Some(mask(30, 20, 9))).unwrap();
    for g in 100..400u16 {
        let _ = atlas.render(key(g), Some(mask(60, 70, 200)));
        atlas.next_frame();
        assert!(atlas.get(key(g)).is_some());
    }
    assert!(atlas.page_count() > 1);
    assert_eq!(atlas.get(key(7)), Some(Some(info)));
    let page = atlas.page(info.page).unwrap();
    for row in 0..20 {
        let at = ((info.y + row) * PAGE + info.x) as usize;
        assert_eq!(&page[at..at + 30], &[9; 30]);
    }
}

#[test]
fn room_is_a_pixel_apart_whatever_was_refused() {
    let mut page = Page::new(50);
    let mut given: Vec<(u32, u32, u32, u32)> = Vec::new();
    for (w, h) in [(20, 9), (60, 1), (25, 14), (10, 30), (3, 3), (50, 50), (49, 2), (1, 1)] {
        if let Some((x, y)) = page.reserve(50, w, h) {
            assert!(x + w <= 50 && y + h <= 50);
            for (x2, y2, w2, h2) in &given {
                assert!(x + w < *x2 || x2 + w2 < x || y + h < *y2 || y2 + h2 < y);
            }
            given.push((x, y, w, h));
        }
    }
    assert_eq!(given.len(), 6);
}

#[test]
fn an_empty_mask_takes_no_room() {
    let mut atlas = Atlas::new();
    assert_eq!(atlas.render(key(1), None), None);
    assert_eq!(atlas.get(key(1)), Some(None));
    assert_eq!(atlas.page_count(), 0);
    assert_eq!(atlas.glyph_count(), 1);
    assert_eq!(atlas.renders(), 1);
}

#[test]
fn packed_masks_do_not_overlap() {
    let mut atlas = Atlas::new();
    let mut placed: Vec<MaskInfo> = Vec::new();
    for g in 0..200u16 {
        let side = 40 + u32::from(g % 50);
        if let Some(info) = atlas.render(key(g), Some(mask(side, side, 1))) {
            placed.push(info);
        }
    }
    assert_eq!(placed.len(), 200);
    for (i, a) in placed.iter().enumerate() {
        for b in &placed[i + 1..] {
            let apart = a.page != b.page
                || a.x + a.w <= b.x
                || b.x + b.w <= a.x
                || a.y + a.h <= b.y
                || b.y + b.h <= a.y;
            assert!(apart, "{a:?} {b:?}");
        }
    }
}

// -- families and distances --------------------------------------------

#[test]
fn family_parse_maps_generics() {
    assert_eq!(Family::parse("sans"), Family::Sans);
    assert_eq!(Family::parse("sans-serif"), Family::Sans);
    assert_eq!(Family::parse("SANS-SERIF"), Family::Sans);
    assert_eq!(Family::parse("mono"), Family::Mono);
    assert_eq!(Family::parse("monospace"), Family::Mono);
    assert_eq!(Family::parse("serif"), Family::Serif);
    assert_eq!(
        Family::parse("DejaVu Sans"),
        Family::Named("DejaVu Sans".to_string())
    );
}

#[test]
fn family_parse_maps_the_generic_aliases() {
    assert_eq!(Family::parse("sans"), Family::Sans);
    assert_eq!(Family::parse("sans-serif"), Family::Sans);
    assert_eq!(Family::parse("mono"), Family::Mono);
    assert_eq!(Family::parse("monospace"), Family::Mono);
    assert_eq!(Family::parse("serif"), Family::Serif);
    assert_eq!(
        Family::parse("Comic Sans MS"),
        Family::Named("Comic Sans MS".to_string())
    );
}

#[test]
fn default_style_is_sans_14() {
    let style = TextStyle::plain(14.0f32);
    assert_eq!(style.family, Family::Sans);
    assert!((style.size_px - 14.0).abs() < f32::EPSILON);
    assert_eq!(style.weight, 400);
    assert!(!style.italic);
}

#[test]
fn attribute_distance_orders_slant_then_width_then_weight() {
    // Wrong slant loses to any other mismatch.
    assert!(
        attr_distance(&record(400, true, 100), &want(400, false))
            > attr_distance(&record(900, false, 50), &want(400, false))
    );
    // A normal-width face beats a condensed one of the same weight, and
    // width outranks any weight difference.
    assert!(
        attr_distance(&record(900, false, 100), &want(400, false))
            < attr_distance(&record(400, false, 75), &want(400, false))
    );
    // At or above the request wins when the request is >= 400.
    assert!(
        attr_distance(&record(700, false, 100), &want(600, false))
            < attr_distance(&record(500, false, 100), &want(600, false))
    );
    // Below the request wins when the request is < 400.
    assert!(
        attr_distance(&record(200, false, 100), &want(300, false))
            < attr_distance(&record(400, false, 100), &want(300, false))
    );
}

// -- the byte cache -----------------------------------------------------

#[test]
fn the_cache_evicts_oldest_first_and_spares_the_newcomer() {
    let mut cache = Cache::new(1000);
    cache.keep(0, Arc::new(vec![0; 50]));
    cache.next_frame();
    cache.keep(1, Arc::new(vec![0; 50]));
    cache.next_frame();
    cache.keep(2, Arc::new(vec![0; 50]));
    cache.set_limit(100);
    cache.trim(Some(2));
    assert_eq!(cache.bytes(), 100);
    assert!(!cache.contains(0), "oldest goes first");
    assert!(cache.contains(2), "the newcomer stays");
    assert_eq!(cache.evictions(), 1);

    // A cap below one file's size keeps only the file just read, so the
    // caller that asked for it is not immediately made to read it again.
    cache.set_limit(0);
    cache.trim(Some(2));
    assert_eq!(cache.len(), 1);
    assert!(cache.contains(2));
    // Without a newcomer to protect, a zero cap empties the cache.
    cache.trim(None);
    assert_eq!(cache.len(), 0);
    assert_eq!(cache.bytes(), 0);
}

#[test]
fn an_idle_file_is_released_and_counted_apart() {
    let mut cache = Cache::new(1000);
    cache.keep(3, Arc::new(vec![1, 2, 3]));
    cache.sweep_idle();
    assert!(cache.contains(3), "the current frame's file stays");
    cache.next_frame();
    cache.sweep_idle();
    assert!(!cache.contains(3));
    assert_eq!((cache.loads(), cache.evictions(), cache.releases()), (1, 0, 1));
}

#[test]
fn touching_a_file_keeps_it_fresh() {
    let mut cache = Cache::new(1000);
    cache.keep(3, Arc::new(vec![1, 2, 3]));
    cache.next_frame();
    assert_eq!(cache.touch(3).as_deref(), Some(&vec![1, 2, 3]));
    assert!(cache.touch(4).is_none());
    cache.sweep_idle();
    assert!(cache.contains(3));
}

// -- the index -----------------------------------------------------------

fn file(path: &str, len: u64) -> FileRecord {
    FileRecord {
        path: path.to_owned(),
        len,
        mtime_secs: 1_700_000_001,
        mtime_nanos: 7,
    }
}

fn sample() -> Index {
    Index {
        dirs: vec![DirRecord {
            path: "/usr/share/fonts".to_owned(),
            mtime_secs: 1_700_000_000,
            mtime_nanos: 42,
            files: 2,
        }],
        files: vec![file("/a/x.ttf", 1024), file("/a/y.ttc", 2048)],
        faces: vec![
            FaceRecord {
                file: 0,
                index: 0,
                family: "DejaVu Sans".to_owned(),
                weight: 400,
                stretch: 100,
                italic: false,
                monospace: false,
            },
            FaceRecord {
                file: 1,
                index: 3,
                family: "Noto Sans Mono".to_owned(),
                weight: 700,
                stretch: 75,
                italic: true,
                monospace: true,
            },
        ],
    }
}

#[test]
fn encode_decode_round_trips() {
    let index = sample();
    assert_eq!(decode(&encode(&index)), Some(index));
}

#[test]
fn corruption_is_rejected_rather_than_guessed_at() {
    let good = encode(&sample());
    assert!(decode(&[]).is_none(), "empty");
    assert!(decode(&good[..good.len() - 1]).is_none(), "truncated");
    let mut trailing = good.clone();
    trailing.push(0);
    assert!(decode(&trailing).is_none(), "trailing garbage");
    let mut bad_magic = good.clone();
    bad_magic[0] = b'X';
    assert!(decode(&bad_magic).is_none(), "magic");
    let mut bad_version = good.clone();
    bad_version[8] = 0xff;
    assert!(decode(&bad_version).is_none(), "version");
    // A face pointing past the end of the file list is rejected: trusting
    // it would index a face whose bytes live nowhere.
    let mut bad_file = Index::clone(&sample());
    bad_file.faces[0].file = 9;
    assert!(decode(&encode(&bad_file)).is_none(), "dangling file index");
    // And every truncation of a good file is a clean `None`, not a panic.
    let full = encode(&sample());
    for cut in 0..full.len() {
        assert!(decode(&full[..cut]).is_none(), "prefix of {cut} bytes");
    }
}

#[test]
fn a_cache_only_loads_for_the_exact_same_walk() {
    let index = sample();
    let bytes = encode(&index);
    assert_eq!(load(&bytes, &index.dirs, &index.files), Some(index.clone()));

    // A changed directory mtime invalidates.
    let mut dirs = index.dirs.clone();
    dirs[0].mtime_secs += 1;
    assert!(load(&bytes, &dirs, &index.files).is_none());

    // So does a changed file list, even at the same count.
    let files = vec![file("/a/x.ttf", 1024), file("/a/z.ttc", 2048)];
    assert!(load(&bytes, &index.dirs, &files).is_none());

    // And so does a font replaced in place: same path, different size.
    let resized = vec![file("/a/x.ttf", 1025), index.files[1].clone()];
    assert!(load(&bytes, &index.dirs, &resized).is_none());

    // And a missing file is simply a miss.
    assert!(load(&[], &index.dirs, &index.files).is_none());
}

#[test]
fn what_could_not_be_looked_at_validates_nothing() {
    let mut index = sample();
    index.dirs[0].mtime_secs = 0;
    index.dirs[0].mtime_nanos = 0;
    assert!(load(&encode(&index), &index.dirs, &index.files).is_none());
    assert!(matches!(
        FontDb::scan_dirs_with_cache(
            index.dirs.clone(),
            index.files.clone(),
            Some(&encode(&index))
        ),
        Started::Unknown(_)
    ));
    let mut index = sample();
    index.files[1] = FileRecord {
        path: "/a/y.ttc".to_owned(),
        len: 0,
        mtime_secs: 0,
        mtime_nanos: 0,
    };
    assert!(load(&encode(&index), &index.dirs, &index.files).is_none());
    // An empty file, and one without a time, were looked at all the same.
    index.files[1].mtime_nanos = 1;
    assert!(load(&encode(&index), &index.dirs, &index.files).is_some());
    index.files[1].mtime_nanos = 0;
    index.files[1].len = 1;
    assert!(load(&encode(&index), &index.dirs, &index.files).is_some());
}

#[test]
fn a_warm_start_is_like_the_cold_one() {
    let dirs = sample().dirs;
    let files = vec![file("/f/a.ttf", 1), file("/f/b.ttf", 1)];
    let Started::Unknown(mut scan) =
        FontDb::scan_dirs_with_cache(dirs.clone(), files.clone(), None)
    else {
        panic!("there is no cache yet");
    };
    scan.add_file(0, &font("Test Sans", 700, true, 'A'));
    scan.add_file(1, &font("Other", 400, false, 'B'));
    let index = scan.finish();
    let bytes = encode(&index);
    let Started::Known(again) = FontDb::scan_dirs_with_cache(dirs, files, Some(&bytes)) else {
        panic!("the cache was not used");
    };
    let cold = FontDb::ingest(index, false, 1, 100);
    let warm = FontDb::ingest(again, true, 2, 100);
    assert!(warm.used_index_cache() && !cold.used_index_cache());
    assert_eq!(warm.len(), 2);
    assert_eq!(warm.len(), cold.len());
    for id in [FontId(0), FontId(1), FontId(2)] {
        assert_eq!(warm.family_name(id), cold.family_name(id));
        assert_eq!(warm.face_path(id), cold.face_path(id));
    }
    for family in ["mono", "serif", "other", "nothing"] {
        for weight in [100, 400, 900] {
            let style = TextStyle {
                family: Family::parse(family),
                size_px: 12.0f32,
                weight,
                italic: false,
            };
            assert!(warm.select(&style).is_some());
            assert_eq!(warm.select(&style), cold.select(&style));
            assert_eq!(warm.fallbacks(&style), cold.fallbacks(&style));
        }
    }
}

#[test]
fn paths_are_put_in_order() {
    let order = |paths: &[&str]| in_order(paths.iter().map(|p| (*p).to_owned()).collect());
    assert_eq!(
        order(&["/f/b.ttf", "/f/a/z.ttf", "/f/a-b.ttf", "/f/b.ttf"]),
        ["/f/a/z.ttf", "/f/a-b.ttf", "/f/b.ttf"],
        "a directory comes before a name that goes on, and nothing twice"
    );
    assert_eq!(
        order(&["x", "./x", "../x", "/x", ".."]),
        ["/x", "./x", "..", "../x", "x"]
    );
    assert_eq!(order(&["/f//a.ttf", "/f/./a.ttf", "/f/a.ttf"]), ["/f//a.ttf"]);
    assert!(order(&[]).is_empty());
}

#[test]
fn a_family_that_is_not_text_is_rejected() {
    let mut bytes = encode(&sample());
    let at = bytes.windows(6).position(|w| w == b"DejaVu").unwrap();
    bytes[at] = 0xff;
    assert!(decode(&bytes).is_none());
}

#[test]
fn a_concrete_family_is_held_as_given() {
    assert_eq!(
        Family::parse(" Fira Code "),
        Family::Named(" Fira Code ".to_owned())
    );
    assert_eq!(Family::parse(" Mono\t"), Family::Mono);
    assert_eq!(Family::parse(""), Family::Named(String::new()));
}

#[test]
fn the_index_cache_has_a_place() {
    assert_eq!(cache_path(Some("/x/y.idx"), None, None).as_deref(), Some("/x/y.idx"));
    assert_eq!(cache_path(None, None, None), None);
    assert!(cache_path(None, Some("/c"), Some("/h"))
        .unwrap()
        .starts_with("/c/"));
    assert!(cache_path(None, None, Some("/h")).unwrap().starts_with("/h/.cache/"));
}

// -- walking and scanning -------------------------------------------------

#[test]
fn font_extensions_are_case_insensitive() {
    assert!(is_font_path("/x/A.TTF"));
    assert!(is_font_path("/x/a.otc"));
    assert!(!is_font_path("/x/a.pfb"));
}

#[test]
fn a_walk_stops_at_a_depth() {
    assert!(descends(0));
    assert!(!descends(100));
}

#[test]
fn chosen_font_directories_win() {
    assert_eq!(font_dirs(Some("/a:/b"), Some("/h")), ["/a", "/b"]);
    let usual = font_dirs(None, Some("/h"));
    assert!(usual.contains(&"/usr/share/fonts".to_owned()), "{usual:?}");
    assert!(usual.iter().any(|d| d.starts_with("/h/")));
}

#[test]
fn the_typographic_family_is_preferred() {
    let a = Some("Type".to_owned());
    let b = Some("Legacy".to_owned());
    assert_eq!(choose_family(&a, &b).as_deref(), Some("Type"));
    assert_eq!(choose_family(&None, &b).as_deref(), Some("Legacy"));
    assert_eq!(choose_family(&None, &None), None);
}

#[test]
fn what_is_no_font_has_no_faces() {
    assert_eq!(face_count(&[]), None);
    assert_eq!(face_count(b"not a font at all"), None);
    for asked in [Asked::Attributes, Asked::Name(1), Asked::Glyphs] {
        assert!(!face_is_readable(b"not a font at all", 0, asked));
    }
}

#[test]
fn a_scan_of_nothing_is_an_empty_db() {
    let mut scan = FontDb::scan_dirs(sample().dirs, vec![file("/a/x.ttf", 3)]);
    scan.add_file(0, b"abc");
    let index = scan.finish();
    assert!(index.faces.is_empty());
    let db = FontDb::ingest(index, false, 5, 100);
    assert!(db.is_empty());
    assert_eq!(db.len(), 0);
    assert_eq!(db.scan_time(), 5);
    assert!(!db.used_index_cache());
    assert!(db.select(&want(400, false)).is_none());
    assert!(db.fallbacks(&want(400, false)).is_empty());
    assert_eq!(db.family_name(FontId(0)), None);
}

#[test]
fn a_matching_index_cache_saves_the_scan() {
    let index = sample();
    let bytes = encode(&index);
    match FontDb::scan_dirs_with_cache(index.dirs.clone(), index.files.clone(), Some(&bytes)) {
        Started::Known(found) => assert_eq!(found, index),
        Started::Unknown(_) => panic!("the cache was not used"),
    }
    let other = vec![file("/a/x.ttf", 9)];
    assert!(matches!(
        FontDb::scan_dirs_with_cache(index.dirs.clone(), other, Some(&bytes)),
        Started::Unknown(_)
    ));
}

fn be16(out: &mut Vec<u8>, n: u16) {
    out.extend_from_slice(&n.to_be_bytes());
}

fn be32(out: &mut Vec<u8>, n: u32) {
    out.extend_from_slice(&n.to_be_bytes());
}

/// A character map from the code points of one letter, in segments.
fn segments(letter: char) -> Vec<u8> {
    let mut cmap = Vec::new();
    be16(&mut cmap, 0);
    be16(&mut cmap, 1);
    be16(&mut cmap, 3);
    be16(&mut cmap, 1);
    be32(&mut cmap, 12);
    let code = letter as u16;
    for n in [4, 32, 0, 4, 4, 1, 0, code, 0xffff, 0, code, 0xffff] {
        be16(&mut cmap, n);
    }
    for n in [1u16.wrapping_sub(code), 1, 0, 0] {
        be16(&mut cmap, n);
    }
    cmap
}

/// A character map of one group.
fn group(start: u32, end: u32, glyph: u32) -> Vec<u8> {
    let mut cmap = Vec::new();
    be16(&mut cmap, 0);
    be16(&mut cmap, 1);
    be16(&mut cmap, 3);
    be16(&mut cmap, 10);
    be32(&mut cmap, 12);
    be16(&mut cmap, 12);
    be16(&mut cmap, 0);
    for n in [28, 0, 1, start, end, glyph] {
        be32(&mut cmap, n);
    }
    cmap
}

/// A name table of some records, each its platform, encoding, language,
/// identifier, length and place, and of their texts.
fn names(records: &[[u16; 6]], texts: &[u8]) -> Vec<u8> {
    let mut name = Vec::new();
    be16(&mut name, 0);
    be16(&mut name, records.len() as u16);
    be16(&mut name, 6 + 12 * records.len() as u16);
    for n in records.iter().flatten() {
        be16(&mut name, *n);
    }
    name.extend_from_slice(texts);
    name
}

/// A name table with one family name.
fn family_name(family: &str) -> Vec<u8> {
    let text: Vec<u8> = family.encode_utf16().flat_map(u16::to_be_bytes).collect();
    names(&[[3, 1, 0x409, 1, text.len() as u16, 0]], &text)
}

/// A font with one letter: what a reader of fonts needs, and nothing more.
fn font(family: &str, weight: u16, fixed: bool, letter: char) -> Vec<u8> {
    font_of(weight, fixed, segments(letter), family_name(family))
}

/// A font of a character map, which ends the file, and a name table.
fn font_of(weight: u16, fixed: bool, cmap: Vec<u8>, name: Vec<u8>) -> Vec<u8> {
    let mut os2 = vec![0u8; 78];
    os2[4..6].copy_from_slice(&weight.to_be_bytes());
    os2[6..8].copy_from_slice(&5u16.to_be_bytes());
    let mut head = vec![0u8; 54];
    head[18..20].copy_from_slice(&1000u16.to_be_bytes());
    let mut hhea = vec![0u8; 36];
    hhea[34..36].copy_from_slice(&1u16.to_be_bytes());
    let hmtx = vec![0u8; 6];
    let mut maxp = vec![0u8; 32];
    maxp[1] = 1;
    maxp[4..6].copy_from_slice(&2u16.to_be_bytes());
    let mut post = vec![0u8; 32];
    post[15] = u8::from(fixed);

    let tables: [(&[u8; 4], Vec<u8>); 8] = [
        (b"OS/2", os2),
        (b"cmap", cmap),
        (b"head", head),
        (b"hhea", hhea),
        (b"hmtx", hmtx),
        (b"maxp", maxp),
        (b"name", name),
        (b"post", post),
    ];
    let mut out = Vec::new();
    be32(&mut out, 0x10000);
    for n in [tables.len() as u16, 128, 3, 0] {
        be16(&mut out, n);
    }
    let start = 12 + 16 * tables.len();
    let mut body = Vec::new();
    let mut places = [0usize; 8];
    for i in [0, 2, 3, 4, 5, 6, 7, 1] {
        places[i] = start + body.len();
        body.extend_from_slice(&tables[i].1);
    }
    for ((tag, data), at) in tables.iter().zip(places) {
        out.extend_from_slice(*tag);
        be32(&mut out, 0);
        be32(&mut out, at as u32);
        be32(&mut out, data.len() as u32);
    }
    out.extend_from_slice(&body);
    out
}

/// What a scan of one file finds.
fn faces_of(data: &[u8]) -> Vec<FaceRecord> {
    let mut scan = FontDb::scan_dirs(Vec::new(), vec![file("/f/a.ttf", 1)]);
    scan.add_file(0, data);
    scan.finish().faces
}

/// A link of a chain to a file.
fn link_to(data: Vec<u8>) -> Link {
    let index = Index {
        faces: vec![record(400, false, 100)],
        files: vec![file("/f/a.ttf", 1)],
        dirs: Vec::new(),
    };
    let mut db = FontDb::ingest(index, false, 0, 1000);
    Link::loaded(FontId(0), db.loaded(FontId(0), data))
}

#[test]
fn a_map_of_groups_is_searched() {
    let data = font_of(400, false, group(0x41, 0x5a, 7), family_name("Groups"));
    assert!(face_is_readable(&data, 0, Asked::Glyphs));
    let chain = vec![link_to(data), Link::unread(FontId(1))];
    assert!(matches!(chain[0].face, Face::Loaded(_)));
    assert_eq!(
        split_runs("AZ", &chain, FontId(0)),
        Ok(vec![Run { font: FontId(0), start: 0, end: 2 }])
    );
    assert_eq!(split_runs("a", &chain, FontId(0)), Err(1), "there is no small letter");
}

#[test]
fn a_map_that_is_cut_short_is_not_searched() {
    let mut cmap = group(0x41, 0x5a, 7);
    cmap.truncate(12 + 15);
    let data = font_of(400, false, cmap, family_name("Cut"));
    assert!(face_is_readable(&data, 0, Asked::Attributes));
    assert!(!face_is_readable(&data, 0, Asked::Glyphs));
    assert!(matches!(link_to(data).face, Face::Gone));
    // With its head whole, a map without its groups has no glyphs at all.
    let mut cmap = group(0x41, 0x5a, 7);
    cmap.truncate(12 + 20);
    let data = font_of(400, false, cmap, family_name("Cut"));
    let chain = vec![link_to(data)];
    assert!(matches!(chain[0].face, Face::Loaded(_)));
    assert_eq!(
        split_runs("A", &chain, FontId(9)),
        Ok(vec![Run { font: FontId(9), start: 0, end: 1 }])
    );
}

#[test]
fn a_group_that_runs_over_is_not_searched() {
    let over = font_of(400, false, group(0, 0x10_ffff, 0xffff_ffff), family_name("Over"));
    assert!(!face_is_readable(&over, 0, Asked::Glyphs));
    assert!(matches!(link_to(over).face, Face::Gone));
    // The same glyph for one character alone is a number.
    let one = font_of(400, false, group(0x41, 0x41, 0xffff_ffff), family_name("One"));
    assert!(face_is_readable(&one, 0, Asked::Glyphs));
    assert!(matches!(link_to(one).face, Face::Loaded(_)));
    // What is past the last character is never asked for.
    let past = font_of(400, false, group(0x11_0000, 0xffff_ffff, 9), family_name("Past"));
    assert!(face_is_readable(&past, 0, Asked::Glyphs));
}

#[test]
fn a_name_that_is_not_asked_for_may_be_anywhere() {
    let text = b"Old";
    let own = [1, 0, 0, 1, 3, 0];
    let stray = [1, 0, 0, 2, 500, 0];
    let data = font_of(400, false, segments('A'), names(&[own, stray], text));
    assert_eq!(faces_of(&data)[0].family, "Old");
    assert!(!face_is_readable(&data, 0, Asked::Name(2)));
    assert!(face_is_readable(&data, 0, Asked::Name(1)));
}

#[test]
fn a_record_that_is_cut_short_is_skipped() {
    let mut name = names(&[[3, 1, 0x409, 1, 6, 0], [1, 0, 0, 1, 9, 9]], &[]);
    // The text is where the second record would go on.
    name[4..6].copy_from_slice(&18u16.to_be_bytes());
    name.truncate(18);
    name.extend_from_slice(&[0, b'N', 0, b'e', 0, b'w']);
    let data = font_of(400, false, segments('A'), name);
    assert_eq!(faces_of(&data)[0].family, "New");
}

#[test]
fn a_table_that_ends_before_its_records_is_not_searched() {
    let mut name = names(&[[3, 1, 0x409, 1, 0, 0]], &[]);
    name[2..4].copy_from_slice(&9u16.to_be_bytes());
    let data = font_of(400, false, segments('A'), name.clone());
    assert!(!face_is_readable(&data, 0, Asked::Name(1)));
    assert!(faces_of(&data).is_empty());
    // A string free of any language is taken before the end is reached.
    name[6..8].copy_from_slice(&0u16.to_be_bytes());
    let data = font_of(400, false, segments('A'), name);
    assert!(face_is_readable(&data, 0, Asked::Name(1)));
}

#[test]
fn a_family_that_cannot_be_read_is_none() {
    let stray = [1, 0, 0, 1, 500, 0];
    let lost = font_of(400, false, segments('A'), names(&[stray], b"Lost"));
    assert!(!face_is_readable(&lost, 0, Asked::Name(1)));
    assert!(faces_of(&lost).is_empty());
    // Another name of the same face stands in for it.
    let kept = [1, 0, 0, 16, 4, 0];
    let found = font_of(400, false, segments('A'), names(&[stray, kept], b"Kept"));
    assert_eq!(faces_of(&found)[0].family, "Kept");
}

#[test]
fn a_font_is_one_readable_face() {
    let data = font("Test Sans", 700, true, 'A');
    assert_eq!(face_count(&data), Some(1));
    assert!(!face_is_readable(&data, 1, Asked::Attributes));
    for asked in [Asked::Attributes, Asked::Name(1), Asked::Name(16), Asked::Glyphs] {
        assert!(face_is_readable(&data, 0, asked));
    }
}

#[test]
fn a_collection_holds_the_faces_it_says() {
    let mut data = b"ttcf".to_vec();
    be32(&mut data, 0x10000);
    be32(&mut data, 2);
    be32(&mut data, 20);
    be32(&mut data, 8);
    data.extend_from_slice(&font("Test Sans", 400, false, 'A'));
    assert_eq!(face_count(&data), Some(2));
    assert!(face_is_readable(&data, 0, Asked::Attributes));
    assert!(
        !face_is_readable(&data, 1, Asked::Attributes),
        "there is no directory at that place"
    );
}

#[test]
fn a_scan_describes_each_face() {
    let files = vec![file("/f/a.ttf", 1), file("/f/b.ttf", 1)];
    let mut scan = FontDb::scan_dirs(Vec::new(), files);
    scan.add_file(0, &font("Test Sans", 700, true, 'A'));
    scan.add_file(1, &font("Other", 400, false, 'B'));
    let faces = scan.finish().faces;
    assert_eq!(faces.len(), 2);
    assert_eq!(
        faces[0],
        FaceRecord {
            file: 0,
            index: 0,
            family: "Test Sans".to_owned(),
            weight: 700,
            stretch: 100,
            italic: false,
            monospace: true,
        }
    );
    assert_eq!(faces[1].family, "Other");
    assert_eq!(faces[1].weight, 400);
    assert!(!faces[1].monospace);
}

#[test]
fn a_run_changes_where_the_glyphs_run_out() {
    let mut scan = FontDb::scan_dirs(Vec::new(), vec![file("/f/a.ttf", 1), file("/f/b.ttf", 1)]);
    let a = font("First", 400, false, 'A');
    let b = font("Second", 400, false, 'B');
    scan.add_file(0, &a);
    scan.add_file(1, &b);
    let mut db = FontDb::ingest(scan.finish(), false, 0, 100_000);
    let chain = vec![
        Link::loaded(FontId(0), db.loaded(FontId(0), a)),
        Link::loaded(FontId(1), db.loaded(FontId(1), b)),
    ];
    assert_eq!(
        split_runs("AAB", &chain, FontId(0)),
        Ok(vec![
            Run { font: FontId(0), start: 0, end: 2 },
            Run { font: FontId(1), start: 2, end: 3 },
        ])
    );
}

#[test]
fn a_covered_text_asks_for_no_other_font() {
    let files = vec![file("/f/a.ttf", 1), file("/f/b.ttf", 1), file("/f/c.ttf", 1)];
    let mut scan = FontDb::scan_dirs(Vec::new(), files);
    let a = font("First", 400, false, 'A');
    scan.add_file(0, &a);
    scan.add_file(1, &font("Second", 400, false, 'B'));
    scan.add_file(2, &font("Third", 400, false, 'C'));
    let mut db = FontDb::ingest(scan.finish(), false, 0, 100_000);
    let chain = vec![
        Link::loaded(FontId(0), db.loaded(FontId(0), a)),
        Link::unread(FontId(1)),
        Link::unread(FontId(2)),
    ];
    let all = |end| Ok(vec![Run { font: FontId(0), start: 0, end }]);
    assert_eq!(split_runs("AA", &chain, FontId(0)), all(2));
    assert_eq!(split_runs(" A\tA ", &chain, FontId(0)), all(5));
    assert_eq!(db.loaded_files(), 1, "only the primary was read");
    assert_eq!(db.loads(), 1);
    assert_eq!(
        split_runs("AB", &chain, FontId(0)),
        Err(1),
        "a letter that it lacks asks for the next link"
    );
}

#[test]
fn an_index_cache_follows_the_files_it_was_made_of() {
    let fonts = [
        font("First", 400, false, 'A'),
        font("Second", 700, true, 'B'),
        font("Third", 400, false, 'C'),
    ];
    let paths = ["/f/a.ttf", "/f/b.ttf", "/f/c.ttf"];
    // A start over the first few files: the database, and what a scan
    // leaves for the next start.
    let start = |n: usize, cache: Option<&[u8]>| {
        let dirs = vec![DirRecord { files: n as u32, ..sample().dirs[0].clone() }];
        let found: Vec<FileRecord> = paths[..n]
            .iter()
            .zip(&fonts)
            .map(|(path, data)| file(path, data.len() as u64))
            .collect();
        match FontDb::scan_dirs_with_cache(dirs, found, cache) {
            Started::Known(index) => (FontDb::ingest(index, true, 0, 100_000), None),
            Started::Unknown(mut scan) => {
                for (i, data) in fonts[..n].iter().enumerate() {
                    scan.add_file(i as u32, data);
                }
                let index = scan.finish();
                let bytes = encode(&index);
                (FontDb::ingest(index, false, 0, 100_000), Some(bytes))
            }
        }
    };
    let (cold, cache) = start(2, None);
    assert!(!cold.used_index_cache(), "the first scan has no cache to use");
    assert_eq!(cold.len(), 2);
    assert_eq!(cold.loaded_bytes(), 0, "a scan retains no bytes");
    let cache = cache.expect("a scan leaves a cache");
    let (warm, _) = start(2, Some(&cache));
    assert!(warm.used_index_cache(), "the second scan uses it");
    assert_eq!(warm.len(), cold.len());

    let (changed, newer) = start(3, Some(&cache));
    assert!(!changed.used_index_cache(), "a new file invalidates");
    assert_eq!(changed.len(), 3, "and its face is indexed");
    assert_eq!(changed.family_name(FontId(2)), Some("Third"));
    assert_eq!(changed.face_path(FontId(2)), Some("/f/c.ttf"));
    let newer = newer.expect("a scan leaves a cache");
    let (again, _) = start(3, Some(&newer));
    assert!(again.used_index_cache());
    assert_eq!(again.len(), changed.len());
    assert_eq!(again.family_name(FontId(2)), Some("Third"));

    let (corrupt, _) = start(3, Some(b"not an index"));
    assert!(!corrupt.used_index_cache(), "a corrupt cache is discarded");
    assert_eq!(corrupt.len(), changed.len());
    let (missing, _) = start(3, None);
    assert!(!missing.used_index_cache(), "a missing cache is a miss");
    assert_eq!(missing.len(), changed.len());
}

#[test]
fn faces_are_numbered_in_the_order_of_their_paths() {
    let found = ["/g/b.ttf", "/f/a-b.ttf", "/f/a/z.ttf", "/g/b.ttf"];
    let sorted = in_order(found.iter().map(|p| (*p).to_owned()).collect());
    assert_eq!(sorted, ["/f/a/z.ttf", "/f/a-b.ttf", "/g/b.ttf"]);
    let mut scan = FontDb::scan_dirs(
        Vec::new(),
        sorted.iter().map(|p| file(p, 1)).collect(),
    );
    scan.add_file(0, &font("Zeta", 400, false, 'A'));
    scan.add_file(1, b"no font");
    scan.add_file(2, &font("Alpha", 400, false, 'B'));
    let db = FontDb::ingest(scan.finish(), false, 0, 100);
    assert_eq!(db.len(), 2);
    assert_eq!(db.face_path(FontId(0)), Some("/f/a/z.ttf"));
    assert_eq!(db.face_path(FontId(1)), Some("/g/b.ttf"));
    assert_eq!(db.face_path(FontId(2)), None);
}

// -- the database ----------------------------------------------------------

#[test]
fn a_named_family_is_selected() {
    let db = FontDb::ingest(sample(), true, 0, 1000);
    assert_eq!(db.len(), 2);
    assert!(db.used_index_cache());
    let style = TextStyle {
        family: Family::Named("Noto Sans Mono".to_owned()),
        size_px: 14.0f32,
        weight: 700,
        italic: true,
    };
    let font = db.select(&style).unwrap();
    assert_eq!(db.family_name(font), Some("Noto Sans Mono"));
    assert_eq!(db.face_path(font), Some("/a/y.ttc"));
    let chain = db.fallbacks(&style);
    assert_eq!(chain[0], font);
    assert_eq!(chain.len(), 2);
}

#[test]
fn the_mono_alias_finds_a_monospaced_face() {
    let db = FontDb::ingest(sample(), true, 0, 1000);
    let style = TextStyle {
        family: Family::Mono,
        size_px: 14.0f32,
        weight: 400,
        italic: false,
    };
    let font = db.select(&style).unwrap();
    assert_eq!(db.family_name(font), Some("Noto Sans Mono"));
}

#[test]
fn a_face_is_read_once_and_kept() {
    let mut db = FontDb::ingest(sample(), true, 0, 1000);
    let font = db.select(&want(400, false)).unwrap();
    assert_eq!(db.loaded_files(), 0, "a scan keeps no bytes");
    match db.face(font) {
        Lookup::Read { path, .. } => assert_eq!(path, "/a/x.ttf"),
        _ => panic!("the face has to be read"),
    }
    let data = db.loaded(font, vec![7; 10]);
    assert_eq!(data.data(), &[7; 10]);
    assert_eq!(data.index(), 0);
    assert!(matches!(db.face(font), Lookup::Ready(_)));
    assert_eq!((db.loads(), db.loaded_files(), db.loaded_bytes()), (1, 1, 10));
    db.next_frame();
    db.release_idle();
    assert_eq!((db.loaded_files(), db.releases(), db.evictions()), (0, 1, 0));
    assert!(matches!(db.face(FontId(99)), Lookup::Unknown));
}

#[test]
fn over_the_cap_only_the_last_read_stays() {
    let mut db = FontDb::ingest(sample(), true, 0, 15);
    let _ = db.loaded(FontId(0), vec![1; 10]);
    let _ = db.loaded(FontId(1), vec![2; 20]);
    assert_eq!((db.loaded_files(), db.loaded_bytes(), db.evictions()), (1, 20, 1));
    assert!(matches!(db.face(FontId(1)), Lookup::Ready(_)));
    assert!(matches!(db.face(FontId(0)), Lookup::Read { .. }));
    db.set_cache_limit(5);
    assert_eq!((db.loaded_files(), db.loaded_bytes()), (0, 0));
}

#[test]
fn a_file_stays_for_the_frame_it_was_read_in() {
    let mut db = FontDb::ingest(sample(), true, 0, 1000);
    let _ = db.loaded(FontId(0), vec![1; 10]);
    db.release_idle();
    assert_eq!(db.loaded_files(), 1);
    db.next_frame();
    assert_eq!(db.loaded_files(), 1);
    db.release_idle();
    assert_eq!((db.loaded_files(), db.loaded_bytes()), (0, 0));
    assert_eq!((db.releases(), db.evictions()), (1, 0));
}

#[test]
fn what_is_handed_out_outlives_the_cache() {
    let mut db = FontDb::ingest(sample(), true, 0, 1000);
    let held = db.loaded(FontId(1), vec![3; 4]);
    let again = match db.face(FontId(1)) {
        Lookup::Ready(d) => d,
        _ => panic!("the file is there"),
    };
    assert_eq!((again.data(), again.index()), (held.data(), held.index()));
    db.next_frame();
    db.release_idle();
    db.set_cache_limit(0);
    let _ = db.loaded(FontId(1), vec![9; 9]);
    assert_eq!((held.data(), held.index()), (&[3u8; 4][..], 3));
}

#[test]
fn a_load_is_counted_once() {
    let mut db = FontDb::ingest(sample(), true, 0, 1000);
    assert!(matches!(db.face(FontId(0)), Lookup::Read { .. }));
    assert_eq!((db.loads(), db.loaded_files()), (0, 0));
    let _ = db.loaded(FontId(0), vec![1; 10]);
    assert!(matches!(db.face(FontId(0)), Lookup::Ready(_)));
    assert!(matches!(db.face(FontId(7)), Lookup::Unknown));
    assert_eq!((db.loads(), db.loaded_files(), db.loaded_bytes()), (1, 1, 10));
}

#[test]
fn a_tiny_cap_evicts() {
    let mut db = FontDb::ingest(sample(), true, 0, 1000);
    let _ = db.loaded(FontId(0), vec![1; 10]);
    db.next_frame();
    let _ = db.loaded(FontId(1), vec![2; 10]);
    assert_eq!(db.loaded_files(), 2);
    db.set_cache_limit(1);
    assert_eq!(db.cache_limit(), 1);
    assert_eq!(db.loads(), db.evictions() + db.releases() + db.loaded_files() as u64);
}

// -- shaping -----------------------------------------------------------------

#[test]
fn logical_lines_split_on_lf_and_crlf() {
    let text = "a\nb\r\nc";
    let lines: Vec<&str> = split_logical_lines(text)
        .into_iter()
        .map(|r| &text[r])
        .collect();
    assert_eq!(lines, vec!["a", "b", "c"]);
}

#[test]
fn trailing_newline_makes_an_empty_last_line() {
    let text = "a\n";
    assert_eq!(split_logical_lines(text).len(), 2);
}

#[test]
fn tabs_expand_and_map_back_to_the_tab() {
    let (disp, map) = expand_tabs("a\tb", 10);
    assert_eq!(disp, "a    b");
    assert_eq!(map[0], 10);
    // All four spaces report the tab's offset.
    assert_eq!(&map[1..5], &[11, 11, 11, 11]);
    assert_eq!(map[5], 12);
    assert_eq!(map[6], 13);
}

#[test]
fn cursor_pairs_dedupe_repeated_offsets() {
    let mut out = Vec::new();
    push_cursors(&mut out, &[(0, 0.0), (1, 4.0), (1, 8.0), (2, 12.0)]);
    assert_eq!(out, vec![(0, 0.0), (1, 4.0), (2, 12.0)]);
}

#[test]
fn the_chain_decides_the_font() {
    let ids = vec![FontId(1), FontId(2)];
    let yes = vec![Has::No, Has::Yes];
    assert_eq!(pick_font(&ids, &yes, FontId(1), FontId(1)), Ok(FontId(2)));
    let none = vec![Has::No, Has::No];
    assert_eq!(pick_font(&ids, &none, FontId(2), FontId(1)), Ok(FontId(1)));
}

#[test]
fn text_without_faces_needs_the_first() {
    assert_eq!(
        split_runs("ab", &vec![Link::unread(FontId(4))], FontId(4)),
        Err(0)
    );
    assert_eq!(
        split_runs("ab", &vec![Link::gone(FontId(4))], FontId(4)),
        Ok(vec![Run { start: 0, end: 2, font: FontId(4) }])
    );
    assert_eq!(split_runs("", &vec![], FontId(4)), Ok(vec![]));
}

// -- the store ------------------------------------------------------------------

#[test]
fn insert_get_remove_round_trip() {
    let mut store: TextStore<f32> = TextStore::new();
    assert!(store.is_empty());
    let a = store.insert(1, 10.0);
    let b = store.insert(2, 20.0);
    assert_eq!(store.len(), 2);
    assert!((store.get(a).unwrap() - 10.0).abs() < f32::EPSILON);
    assert!((store.remove(b).unwrap() - 20.0).abs() < f32::EPSILON);
    assert!(store.get(b).is_none());
    assert_eq!(store.len(), 1);
}

#[test]
fn remove_owner_drops_only_that_owners_text() {
    let mut store: TextStore<f32> = TextStore::new();
    let a = store.insert(1, 1.0);
    let b = store.insert(1, 2.0);
    let c = store.insert(7, 3.0);
    store.remove_owner(1);
    assert!(store.get(a).is_none());
    assert!(store.get(b).is_none());
    assert!(store.get(c).is_some());
    assert_eq!(store.len(), 1);
    // Removing an owner twice, or an unknown one, is a no-op.
    store.remove_owner(1);
    store.remove_owner(99);
    assert_eq!(store.len(), 1);
}

#[test]
fn keys_are_not_reused() {
    let mut store: TextStore<f32> = TextStore::new();
    let a = store.insert(1, 1.0);
    store.remove(a);
    let b = store.insert(1, 1.0);
    assert_ne!(a, b);
}

#[test]
fn the_first_strong_character_names_the_script() {
    assert_eq!(detect_script("12 \u{394}x"), "Greek");
    assert_eq!(detect_script("hello \u{394}"), "Latin");
    assert_eq!(detect_script("\u{431}"), "Cyrillic");
    assert_eq!(detect_script("12, 34!"), "Latin");
    assert_eq!(detect_script(""), "Latin");
    let scripts: Vec<String> = ["Common", "Inherited", "Unknown", "Han", "Greek"]
        .iter()
        .map(|s| (*s).to_owned())
        .collect();
    assert_eq!(first_strong(&scripts), "Han");
}

/// Lines of a text whose letters and spaces are one wide.
fn wrapped(text: &str, limit: usize) -> Vec<std::ops::Range<usize>> {
    let spaces: Vec<bool> = text.chars().map(char::is_whitespace).collect();
    let mut wrap = Wrap::new();
    let mut x: usize = 0;
    for (i, space) in spaces.iter().enumerate() {
        if let Some(start) = wrap.step(*space, x + 1 > limit) {
            x = i - start;
        }
        x += 1;
    }
    wrap.finish()
}

#[test]
fn lines_break_behind_a_space() {
    assert_eq!(wrapped("ab cd ef", 5), vec![0..6, 6..8]);
    assert_eq!(wrapped("ab cd ef", 100), vec![0..8]);
    assert_eq!(wrapped("", 5), vec![0..0]);
}

#[test]
fn a_word_too_long_is_cut() {
    assert_eq!(wrapped("abcdefg", 3), vec![0..3, 3..6, 6..7]);
    assert_eq!(wrapped("a bcdefg", 3), vec![0..2, 2..5, 5..8]);
}

#[test]
fn spaces_at_the_end_do_not_break() {
    assert_eq!(wrapped("ab    ", 3), vec![0..6]);
}

#[test]
fn lines_cover_the_text() {
    for limit in 1..9 {
        let lines = wrapped("one two  three fourteen", limit);
        assert_eq!(lines[0].start, 0);
        assert_eq!(lines[lines.len() - 1].end, 23);
        for pair in lines.windows(2) {
            assert_eq!(pair[0].end, pair[1].start);
        }
    }
}

#[test]
fn a_line_is_as_wide_as_its_ink() {
    assert_eq!(ink_end(&[false, true, false, true, true]), 3);
    assert_eq!(ink_end(&[true, true]), 0);
    assert_eq!(ink_end(&[]), 0);
    assert_eq!(one_line(4), vec![0..4]);
}
