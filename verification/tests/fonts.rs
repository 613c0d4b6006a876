//! The font database, the index cache and the atlas working together.

use std::collections::HashMap;

use nitro::text::atlas::{Atlas, GlyphKey, Image, MaskInfo, PAGE};
use nitro::text::db::{FaceData, Family, FontDb, FontId, Lookup, TextStyle};
use nitro::text::index::{encode, DirRecord, FaceRecord, FileRecord, Index};
use nitro::text::scan::Started;
use nitro::text::shaping::{split_runs, Link, Run};

fn style() -> TextStyle<f32> {
    TextStyle::plain(14.0)
}

fn record(path: &str) -> FileRecord {
    FileRecord {
        path: path.to_owned(),
        len: 40,
        mtime_secs: 3,
        mtime_nanos: 4,
    }
}

fn face(file: u32, family: &str, weight: u16, italic: bool) -> FaceRecord {
    FaceRecord {
        file,
        index: 0,
        family: family.to_owned(),
        weight,
        stretch: 100,
        italic,
        monospace: family.ends_with("Mono"),
    }
}

fn desktop() -> Index {
    Index {
        dirs: vec![DirRecord {
            path: "/fonts".to_owned(),
            mtime_secs: 1,
            mtime_nanos: 2,
            files: 5,
        }],
        files: vec![
            record("/fonts/a.ttf"),
            record("/fonts/b.ttf"),
            record("/fonts/c.ttf"),
            record("/fonts/d.ttf"),
            record("/fonts/e.ttf"),
        ],
        faces: vec![
            face(0, "Noto Sans", 400, false),
            face(1, "Noto Sans", 700, false),
            face(2, "Noto Sans", 400, true),
            face(3, "Noto Sans Mono", 400, false),
            face(4, "Noto Serif", 400, false),
        ],
    }
}

fn db(limit: usize) -> FontDb {
    FontDb::ingest(desktop(), false, 0, limit)
}

/// The bytes of a face, out of a disk that holds forty bytes of each file.
fn read(db: &mut FontDb, font: FontId) -> Option<FaceData> {
    match db.face(font) {
        Lookup::Unknown => None,
        Lookup::Ready(data) => Some(data),
        Lookup::Read { .. } => Some(db.loaded(font, vec![font.0 as u8; 40])),
    }
}

fn key(font: FontId, glyph: u16, subpx: u8) -> GlyphKey {
    GlyphKey {
        font,
        glyph,
        size_q: 14 * 64,
        subpx,
    }
}

/// A mask of a glyph, drawn from its face's bytes where it is not there yet.
fn draw(atlas: &mut Atlas, db: &mut FontDb, key: GlyphKey) -> Option<MaskInfo> {
    if let Some(known) = atlas.get(key) {
        return known;
    }
    let data = read(db, key.font)?;
    let image = if key.glyph % 7 == 3 {
        None
    } else {
        Some(Image {
            mask: true,
            w: 8,
            h: 11,
            left: 0,
            top: 10,
            data: vec![data.data()[0]; 88],
        })
    };
    atlas.render(key, image)
}

#[test]
fn atlas_packs_three_thousand_keys_into_few_pages() {
    let mut db = db(1000);
    let font = db.select(&style()).expect("a face");
    let mut atlas = Atlas::new();
    let mut requested = 0;
    let mut glyph = 1u16;
    while requested < 3000 {
        for subpx in 0..4u8 {
            if requested == 3000 {
                break;
            }
            draw(&mut atlas, &mut db, key(font, glyph, subpx));
            requested += 1;
        }
        glyph = glyph.wrapping_add(1).max(1);
    }
    assert!(atlas.page_count() <= 8, "{}", atlas.page_count());
    assert_eq!(
        atlas.renders(),
        atlas.glyph_count() as u64,
        "one rasterization per distinct key, empty masks included"
    );
    let k = key(font, 40, 0);
    let first = draw(&mut atlas, &mut db, k);
    let renders = atlas.renders();
    for _ in 0..100 {
        assert_eq!(draw(&mut atlas, &mut db, k), first);
    }
    assert_eq!(atlas.renders(), renders, "repeat get must not re-render");
    let mask = first.expect("a mask");
    let page = atlas.page(mask.page).expect("page exists");
    assert_eq!(page.len(), (PAGE * PAGE) as usize);
    assert!(mask.x + mask.w <= PAGE && mask.y + mask.h <= PAGE);
    atlas.next_frame();
}

#[test]
fn a_space_has_no_mask() {
    let mut db = db(1000);
    let mut atlas = Atlas::new();
    let k = key(FontId(0), 3, 0);
    assert!(draw(&mut atlas, &mut db, k).is_none(), "a space has no pixels");
    assert_eq!(atlas.page_count(), 0, "and occupies no page");
    let renders = atlas.renders();
    assert!(draw(&mut atlas, &mut db, k).is_none());
    assert_eq!(atlas.renders(), renders);
    assert_eq!(atlas.glyph_count(), 1, "the negative result is an entry");
}

#[test]
fn an_empty_db_selects_nothing_and_shapes_nothing() {
    let index = FontDb::scan_dirs(Vec::new(), Vec::new()).finish();
    let mut db = FontDb::ingest(index, false, 0, 1000);
    assert!(db.is_empty());
    assert_eq!(db.len(), 0);
    assert!(db.select(&style()).is_none());
    assert!(db.fallbacks(&style()).is_empty());
    assert!(db.family_name(FontId(0)).is_none());
    assert!(read(&mut db, FontId(0)).is_none());
    assert!(db.face_path(FontId(0)).is_none());
    assert_eq!(db.loaded_bytes(), 0);
    let mut atlas = Atlas::new();
    assert!(draw(&mut atlas, &mut db, key(FontId(0), 1, 0)).is_none());
    assert_eq!(atlas.page_count(), 0);
}

#[test]
fn generic_aliases_resolve_to_different_families_when_available() {
    let db = db(1000);
    let of = |family: Family| {
        let style = TextStyle { family, ..style() };
        let id = db.select(&style).expect("a face");
        db.family_name(id).expect("a name").to_ascii_lowercase()
    };
    assert!(of(Family::Mono).contains("mono"));
    assert_eq!(of(Family::Serif), "noto serif");
    assert_eq!(of(Family::Sans), "noto sans");
}

#[test]
fn bold_and_italic_select_different_faces_when_the_family_has_them() {
    let db = db(1000);
    let regular = db.select(&style());
    let bold = db.select(&TextStyle {
        weight: 700,
        ..style()
    });
    let italic = db.select(&TextStyle {
        italic: true,
        ..style()
    });
    assert_eq!(
        (regular, bold, italic),
        (Some(FontId(0)), Some(FontId(1)), Some(FontId(2)))
    );
}

#[test]
fn a_scan_holds_no_bytes_until_a_face_is_used() {
    let mut db = db(1000);
    assert_eq!(db.loaded_bytes(), 0, "a scan retains no font bytes");
    assert_eq!(db.loaded_files(), 0);
    assert_eq!(db.loads(), 0);
    let font = db.select(&style()).expect("a face");
    assert!(read(&mut db, font).is_some());
    assert!(db.loaded_bytes() > 0, "the first use loads a face");
    assert_eq!(db.loaded_files(), 1);
    assert_eq!(db.loads(), 1);
    assert!(read(&mut db, font).is_some());
    assert_eq!(db.loads(), 1, "a cached face is not re-read");
    assert!(db.loaded_bytes() < 5 * 40, "a subset of the font files is resident");
}

#[test]
fn eviction_under_a_tiny_cap_keeps_the_atlas_working() {
    let mut db = db(1000);
    db.set_cache_limit(1);
    let mut atlas = Atlas::new();
    let ids: Vec<FontId> = (0..db.len() as u32).map(FontId).collect();
    for id in &ids {
        for glyph in 20u16..30 {
            draw(&mut atlas, &mut db, key(*id, glyph, 0));
        }
    }
    let renders = atlas.renders();
    let cached = atlas.glyph_count();
    assert!(cached > 0, "the atlas must have cached something");
    assert!(db.evictions() > 0, "a 1-byte cap must evict");
    assert_eq!(db.releases(), 0, "nothing went idle");
    assert!(db.loaded_bytes() <= 40, "at most one file stays resident");
    let loads = db.loads();
    for id in &ids {
        for glyph in 20u16..30 {
            draw(&mut atlas, &mut db, key(*id, glyph, 0));
        }
    }
    assert_eq!(atlas.renders(), renders, "a cached mask is never re-rendered");
    assert_eq!(atlas.glyph_count(), cached);
    assert_eq!(db.loads(), loads, "and needs no face at all");
    db.set_cache_limit(64 * 1024 * 1024);
    for id in &ids {
        draw(&mut atlas, &mut db, key(*id, 31, 0));
    }
    let evictions = db.evictions();
    for id in &ids {
        draw(&mut atlas, &mut db, key(*id, 32, 0));
    }
    assert_eq!(db.evictions(), evictions, "a roomy cap evicts nothing");
}

#[test]
fn the_index_cache_round_trips_and_invalidates() {
    let walk = desktop();
    let scan = |files: &Vec<FileRecord>, cache: Option<&[u8]>| {
        match FontDb::scan_dirs_with_cache(walk.dirs.clone(), files.clone(), cache) {
            Started::Known(index) => (FontDb::ingest(index, true, 0, 1000), Vec::new()),
            Started::Unknown(scan) => {
                let index = Index {
                    faces: desktop().faces,
                    ..scan.finish()
                };
                let bytes = encode(&index);
                (FontDb::ingest(index, false, 0, 1000), bytes)
            }
        }
    };
    let (cold, cache) = scan(&walk.files, None);
    assert!(!cold.used_index_cache(), "the first scan has no cache to use");
    assert_eq!(cold.loaded_bytes(), 0, "writing the cache retains no bytes");
    let (warm, _) = scan(&walk.files, Some(&cache));
    assert!(warm.used_index_cache(), "the second scan uses it");
    assert_eq!(warm.len(), cold.len(), "same faces");
    for id in (0..cold.len() as u32).map(FontId) {
        assert_eq!(warm.family_name(id), cold.family_name(id));
        assert_eq!(warm.face_path(id), cold.face_path(id));
    }
    assert_eq!(warm.select(&style()), cold.select(&style()));
    let mut more = walk.files.clone();
    more.push(record("/fonts/extra.ttf"));
    let (changed, cache) = scan(&more, Some(&cache));
    assert!(!changed.used_index_cache(), "a new file invalidates");
    let (again, _) = scan(&more, Some(&cache));
    assert!(again.used_index_cache());
    let (rescan, _) = scan(&more, Some(b"not an index"));
    assert!(!rescan.used_index_cache(), "a corrupt cache is discarded");
    assert_eq!(rescan.len(), changed.len());
}

#[test]
fn the_fallback_chain_is_not_loaded_for_text_the_primary_covers() {
    let db = db(1000);
    let chain = db.fallbacks(&style());
    assert!(chain.len() >= 1);
    assert_eq!(db.loaded_files(), 0, "listing the chain reads nothing");
    let links: Vec<Link> = chain.iter().map(|id| Link::unread(*id)).collect();
    assert_eq!(
        split_runs("A", &links, chain[0]),
        Err(0),
        "the primary is asked for first"
    );
    let spaces = split_runs("  ", &links, chain[0]);
    let run = Run {
        font: chain[0],
        start: 0,
        end: 2,
    };
    assert_eq!(spaces, Ok(vec![run]), "and nothing else is");
}

#[test]
fn an_idle_release_returns_the_bytes_and_keeps_every_mask() {
    let mut db = db(1000);
    let font = db.select(&style()).expect("a face");
    let mut atlas = Atlas::new();
    let mut shown: HashMap<u16, Option<MaskInfo>> = HashMap::new();
    for glyph in 1..9u16 {
        let mask = draw(&mut atlas, &mut db, key(font, glyph, 0));
        shown.insert(glyph, mask);
    }
    assert!(db.loaded_bytes() > 0, "drawing loads the face");
    let masks = atlas.glyph_count();
    let renders = atlas.renders();
    assert!(masks > 0);
    db.release_idle();
    assert!(db.loaded_bytes() > 0, "the current frame's face stays");
    assert_eq!(db.releases(), 0);
    db.next_frame();
    db.release_idle();
    assert_eq!(db.loaded_bytes(), 0, "an idle face is released");
    assert_eq!(db.loaded_files(), 0);
    assert!(db.releases() > 0, "counted as a release");
    assert_eq!(db.evictions(), 0, "and not as a cap eviction");
    let loads = db.loads();
    for (glyph, mask) in &shown {
        assert_eq!(draw(&mut atlas, &mut db, key(font, *glyph, 0)), *mask);
    }
    assert_eq!(atlas.glyph_count(), masks, "no mask was lost");
    assert_eq!(atlas.renders(), renders, "and none was re-rendered");
    assert_eq!(db.loads(), loads, "a cached mask needs no face");
    draw(&mut atlas, &mut db, key(font, 200, 0));
    assert_eq!(db.loads(), loads + 1, "exactly one re-read");
}
