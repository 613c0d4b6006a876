//! Font discovery: a flat index of the faces found on disk, and which of
//! them a style is drawn with.

use std::sync::Arc;

use vstd::prelude::*;

use crate::chars::{
    chars_of, comes_before, contains_text, holds, insert_text, lower, lowered, owned, same,
    string_of, text_before, text_eq, text_sorted, texts, trim, trimmed as trim_chars,
};
use crate::arena::text_view;
use crate::text::cache::{
    framed, lemma_swept, lemma_taken_in, lemma_touched, lemma_trimmed_to_cap, sane, slot_of, swept,
    taken_in, total, touched, trimmed_to_cap, within_cap, Cache, CacheView,
};
use crate::text::index::{faces_view, FaceRecord, FaceView, FileView, Index, IndexView};

verus! {

/// Index of a font face in a [`FontDb`].
///
/// Stable for the lifetime of the index, so that an id can be put on the
/// wire and handed back.
#[derive(Debug, Clone, Copy, PartialEq, Eq, Structural, PartialOrd, Ord, Hash)]
pub struct FontId(pub u32);

/// A font family request: one of the three generic aliases, or a name.
#[derive(Debug, Clone, PartialEq, Eq)]
pub enum Family {
    /// The generic sans-serif alias.
    Sans,
    /// The generic serif alias.
    Serif,
    /// The generic monospace alias.
    Mono,
    /// A concrete family name, matched whatever its case.
    Named(String),
}

/// What a [`Family`] asks for, as mathematical values.
pub enum FamilyView {
    /// The generic sans-serif alias.
    Sans,
    /// The generic serif alias.
    Serif,
    /// The generic monospace alias.
    Mono,
    /// A concrete family name.
    Named(Seq<char>),
}

impl View for Family {
    type V = FamilyView;

    open spec fn view(&self) -> FamilyView {
        match *self {
            Family::Sans => FamilyView::Sans,
            Family::Serif => FamilyView::Serif,
            Family::Mono => FamilyView::Mono,
            Family::Named(s) => FamilyView::Named(s@),
        }
    }
}

/// What a family string asks for: the generic names in any case and with
/// white space around them, and a concrete family otherwise, just as it was
/// given.
pub open spec fn parsed_family(s: Seq<char>) -> FamilyView {
    let small = lower(trim(s));
    if small == "sans"@ || small == "sans-serif"@ {
        FamilyView::Sans
    } else if small == "mono"@ || small == "monospace"@ {
        FamilyView::Mono
    } else if small == "serif"@ {
        FamilyView::Serif
    } else {
        FamilyView::Named(s)
    }
}

fn is_text(v: &[char], t: &str) -> (r: bool)
    ensures
        r == (v@ == t@),
{
    let w = chars_of(t);
    same(v, w.as_slice())
}

impl Family {
    /// Parse a family string as a style sheet has it.
    pub fn parse(s: &str) -> (f: Family)
        ensures
            f@ == parsed_family(s@),
    {
        let v = chars_of(s);
        let bare = trim_chars(v.as_slice());
        let small = lowered(bare.as_slice());
        let w = small.as_slice();
        if is_text(w, "sans") || is_text(w, "sans-serif") {
            Family::Sans
        } else if is_text(w, "mono") || is_text(w, "monospace") {
            Family::Mono
        } else if is_text(w, "serif") {
            Family::Serif
        } else {
            Family::Named(owned(s))
        }
    }
}

/// What to shape with: family, size and the two attributes that faces are
/// selected by. The size is of whatever type the shaper measures in.
#[derive(Debug)]
pub struct TextStyle<M> {
    /// Requested family.
    pub family: Family,
    /// Em size in device pixels.
    pub size_px: M,
    /// CSS weight, 100..=900 (400 normal, 700 bold).
    pub weight: u16,
    /// Italic or oblique requested.
    pub italic: bool,
}

impl<M> TextStyle<M> {
    /// Upright sans of normal weight, at a size.
    pub fn plain(size_px: M) -> (s: TextStyle<M>)
        ensures
            s.family@ is Sans,
            s.size_px == size_px,
            s.weight == 400,
            !s.italic,
    {
        TextStyle { family: Family::Sans, size_px, weight: 400, italic: false }
    }
}

// ---------------------------------------------------------------------
// how far a face is from a request
// ---------------------------------------------------------------------

/// Normal width, in raw stretch units.
pub const NORMAL_STRETCH: u16 = 100;

/// A wrong slant costs more than anything else.
pub const SLANT_PENALTY: u32 = 1000000;

/// One raw unit of width mismatch costs more than any weight distance.
pub const STRETCH_PENALTY: u32 = 2000;

/// Preferring the wrong side of the requested weight costs more than any
/// weight delta.
pub const WRONG_SIDE_PENALTY: u32 = 1000;

/// The distance of two numbers.
pub open spec fn apart(a: int, b: int) -> int {
    if a < b {
        b - a
    } else {
        a - b
    }
}

/// How far a face is from a request: slant first, then width, then weight,
/// where the side that the request is on is preferred: heavier from normal
/// weight on, lighter below it.
pub open spec fn distance(f: FaceView, weight: u16, italic: bool) -> int {
    let slant = if f.italic != italic {
        SLANT_PENALTY as int
    } else {
        0
    };
    let wrong_side = if weight >= 400 {
        f.weight < weight
    } else {
        f.weight > weight
    };
    slant + apart(f.stretch as int, NORMAL_STRETCH as int) * STRETCH_PENALTY + (if wrong_side {
        WRONG_SIDE_PENALTY as int
    } else {
        0
    }) + apart(f.weight as int, weight as int)
}

/// How far a face's attributes are from a request.
pub fn attr_distance<M>(face: &FaceRecord, want: &TextStyle<M>) -> (d: u32)
    ensures
        d == distance(face@, want.weight, want.italic),
{
    let slant: u32 = if face.italic != want.italic {
        SLANT_PENALTY
    } else {
        0
    };
    let width: u32 = if face.stretch < NORMAL_STRETCH {
        (NORMAL_STRETCH - face.stretch) as u32
    } else {
        (face.stretch - NORMAL_STRETCH) as u32
    };
    let delta: u32 = if face.weight < want.weight {
        (want.weight - face.weight) as u32
    } else {
        (face.weight - want.weight) as u32
    };
    let wrong_side = if want.weight >= 400 {
        face.weight < want.weight
    } else {
        face.weight > want.weight
    };
    let side: u32 = if wrong_side {
        WRONG_SIDE_PENALTY
    } else {
        0
    };
    slant + width * STRETCH_PENALTY + side + delta
}

/// Whether the attributes of a face are ones that a font can have: the
/// widest stretch is 300, and no weight is above 1000.
pub open spec fn plausible(f: FaceView) -> bool {
    f.stretch <= 300 && f.weight <= 1000
}

/// A face of the wanted slant beats any face of the other one.
pub proof fn slant_comes_first(a: FaceView, b: FaceView, weight: u16, italic: bool)
    requires
        plausible(a),
        plausible(b),
        weight <= 1000,
        a.italic == italic,
        b.italic != italic,
    ensures
        distance(a, weight, italic) < distance(b, weight, italic),
{
}

/// Among faces of one slant, the one closer to normal width beats the
/// other whatever their weights.
pub proof fn width_comes_second(a: FaceView, b: FaceView, weight: u16, italic: bool)
    requires
        apart(a.weight as int, weight as int) < 1000,
        a.italic == b.italic,
        apart(a.stretch as int, NORMAL_STRETCH as int) < apart(
            b.stretch as int,
            NORMAL_STRETCH as int,
        ),
    ensures
        distance(a, weight, italic) < distance(b, weight, italic),
{
}

/// Among faces of one slant and width, one on the preferred side of the
/// wanted weight beats any on the other side.
pub proof fn the_preferred_side_comes_third(a: FaceView, b: FaceView, weight: u16, italic: bool)
    requires
        apart(a.weight as int, weight as int) < 1000,
        a.italic == b.italic,
        a.stretch == b.stretch,
        weight >= 400 ==> b.weight < weight <= a.weight,
        weight < 400 ==> a.weight <= weight < b.weight,
    ensures
        distance(a, weight, italic) < distance(b, weight, italic),
{
}

// ---------------------------------------------------------------------
// families
// ---------------------------------------------------------------------

/// The key of a face: its family's name in small letters.
pub open spec fn key(f: FaceView) -> Seq<char> {
    lower(f.family)
}

/// The families of some faces, in the order they were discovered.
pub open spec fn names_of(faces: Seq<FaceView>) -> Seq<Seq<char>>
    decreases faces.len(),
{
    if faces.len() == 0 {
        Seq::empty()
    } else {
        let head = names_of(faces.drop_last());
        if head.contains(key(faces.last())) {
            head
        } else {
            head.push(key(faces.last()))
        }
    }
}

/// The faces of a family, in the order they were discovered.
pub open spec fn ids_of(faces: Seq<FaceView>, name: Seq<char>) -> Seq<u32>
    decreases faces.len(),
{
    if faces.len() == 0 {
        Seq::empty()
    } else {
        let head = ids_of(faces.drop_last(), name);
        if key(faces.last()) == name {
            head.push((faces.len() - 1) as u32)
        } else {
            head
        }
    }
}

/// Whether a family is monospace: its name says so, or one of its faces
/// does.
pub open spec fn is_mono(faces: Seq<FaceView>, name: Seq<char>) -> bool
    decreases faces.len(),
{
    faces.len() > 0 && (is_mono(faces.drop_last(), name) || (key(faces.last()) == name && (
    faces.last().monospace || holds(name, "mono"@))))
}

/// Whether a family is a serif one, which its name has to say.
pub open spec fn is_serif(faces: Seq<FaceView>, name: Seq<char>) -> bool {
    !is_mono(faces, name) && holds(name, "serif"@) && !holds(name, "sans"@)
}

/// Whether a family fits a generic alias.
pub open spec fn fits(faces: Seq<FaceView>, name: Seq<char>, generic: FamilyView) -> bool {
    match generic {
        FamilyView::Mono => is_mono(faces, name),
        FamilyView::Serif => is_serif(faces, name),
        _ => !is_mono(faces, name) && !is_serif(faces, name),
    }
}

/// The families that a generic alias prefers, the first of them most.
pub open spec fn prefs_of(generic: FamilyView) -> Seq<Seq<char>> {
    match generic {
        FamilyView::Mono => seq![
            "noto sans mono"@,
            "dejavu sans mono"@,
            "liberation mono"@,
            "droid sans mono"@,
        ],
        FamilyView::Serif => seq![
            "noto serif"@,
            "dejavu serif"@,
            "liberation serif"@,
            "droid serif"@,
        ],
        _ => seq![
            "noto sans"@,
            "dejavu sans"@,
            "cantarell"@,
            "liberation sans"@,
            "droid sans"@,
        ],
    }
}

/// Those of `wanted` that are among `names`, in the order of `wanted`.
pub open spec fn present(wanted: Seq<Seq<char>>, names: Seq<Seq<char>>) -> Seq<Seq<char>>
    decreases wanted.len(),
{
    if wanted.len() == 0 {
        Seq::empty()
    } else {
        let head = present(wanted.drop_last(), names);
        if names.contains(wanted.last()) {
            head.push(wanted.last())
        } else {
            head
        }
    }
}

/// The families of `names` that fit a generic alias.
pub open spec fn fitting(
    faces: Seq<FaceView>,
    names: Seq<Seq<char>>,
    generic: FamilyView,
) -> Seq<Seq<char>>
    decreases names.len(),
{
    if names.len() == 0 {
        Seq::empty()
    } else {
        let head = fitting(faces, names.drop_last(), generic);
        if fits(faces, names.last(), generic) {
            head.push(names.last())
        } else {
            head
        }
    }
}

/// Those of `s` that are not among `out`.
pub open spec fn others(s: Seq<Seq<char>>, out: Seq<Seq<char>>) -> Seq<Seq<char>>
    decreases s.len(),
{
    if s.len() == 0 {
        Seq::empty()
    } else {
        let head = others(s.drop_last(), out);
        if out.contains(s.last()) {
            head
        } else {
            head.push(s.last())
        }
    }
}

/// The first of some names in alphabetical order.
pub open spec fn least(s: Seq<Seq<char>>) -> Option<Seq<char>>
    decreases s.len(),
{
    if s.len() == 0 {
        None
    } else {
        match least(s.drop_last()) {
            None => Some(s.last()),
            Some(b) => if text_before(s.last(), b) {
                Some(s.last())
            } else {
                Some(b)
            },
        }
    }
}

/// The family that a generic alias stands for: the most preferred one that
/// is there, else the first that fits, else the first at all.
pub open spec fn alias_first(faces: Seq<FaceView>, generic: FamilyView) -> Option<Seq<char>> {
    let names = names_of(faces);
    let liked = present(prefs_of(generic), names);
    if liked.len() > 0 {
        Some(liked[0])
    } else {
        match least(fitting(faces, names, generic)) {
            Some(n) => Some(n),
            None => least(names),
        }
    }
}

/// Every family that a generic alias can fall back on: the preferred ones
/// that are there, and then whatever fits, in alphabetical order.
pub open spec fn alias_families(faces: Seq<FaceView>, generic: FamilyView) -> Seq<Seq<char>> {
    let names = names_of(faces);
    let liked = present(prefs_of(generic), names);
    liked + text_sorted(others(fitting(faces, names, generic), liked))
}

/// The family that a request is drawn with. A name that is not there is
/// drawn with the sans alias, as a browser would.
pub open spec fn resolved_family(faces: Seq<FaceView>, family: FamilyView) -> Option<Seq<char>> {
    match family {
        FamilyView::Named(n) => if names_of(faces).contains(lower(n)) {
            Some(lower(n))
        } else {
            alias_first(faces, FamilyView::Sans)
        },
        _ => alias_first(faces, family),
    }
}

/// The closest of `ids` to a request; the first among equals.
pub open spec fn closest(faces: Seq<FaceView>, ids: Seq<u32>, weight: u16, italic: bool) -> Option<u32>
    decreases ids.len(),
{
    if ids.len() == 0 {
        None
    } else {
        let x = ids.last();
        match closest(faces, ids.drop_last(), weight, italic) {
            None => Some(x),
            Some(b) => if distance(faces[x as int], weight, italic) < distance(
                faces[b as int],
                weight,
                italic,
            ) {
                Some(x)
            } else {
                Some(b)
            },
        }
    }
}

/// The face of a family that is closest to a request.
pub open spec fn picked(faces: Seq<FaceView>, name: Seq<char>, weight: u16, italic: bool) -> Option<
    u32,
> {
    closest(faces, ids_of(faces, name), weight, italic)
}

/// The face that a request is drawn with.
pub open spec fn selected(faces: Seq<FaceView>, family: FamilyView, weight: u16, italic: bool) -> Option<
    u32,
> {
    match resolved_family(faces, family) {
        Some(name) => picked(faces, name, weight, italic),
        None => None,
    }
}

/// One face from each of `names` but those in `seen`, in order.
pub open spec fn one_each(
    faces: Seq<FaceView>,
    names: Seq<Seq<char>>,
    seen: Seq<Seq<char>>,
    weight: u16,
    italic: bool,
) -> Seq<u32>
    decreases names.len(),
{
    if names.len() == 0 {
        Seq::empty()
    } else {
        let rest = names.drop_first();
        if seen.contains(names[0]) {
            one_each(faces, rest, seen, weight, italic)
        } else {
            match picked(faces, names[0], weight, italic) {
                Some(id) => seq![id] + one_each(
                    faces,
                    rest,
                    seen.push(key(faces[id as int])),
                    weight,
                    italic,
                ),
                None => one_each(faces, rest, seen, weight, italic),
            }
        }
    }
}

/// The generic alias whose families a request falls back on.
pub open spec fn generic_of(family: FamilyView) -> FamilyView {
    match family {
        FamilyView::Mono => FamilyView::Mono,
        FamilyView::Serif => FamilyView::Serif,
        _ => FamilyView::Sans,
    }
}

/// The faces to try for a request: the selected one, and then one from each
/// other family of its alias.
pub open spec fn fallback_chain(
    faces: Seq<FaceView>,
    family: FamilyView,
    weight: u16,
    italic: bool,
) -> Seq<u32> {
    let names = alias_families(faces, generic_of(family));
    match selected(faces, family, weight, italic) {
        Some(id) => seq![id] + one_each(faces, names, seq![key(faces[id as int])], weight, italic),
        None => one_each(faces, names, Seq::empty(), weight, italic),
    }
}

// ---------------------------------------------------------------------
// the index
// ---------------------------------------------------------------------

struct FamilyInfo {
    name: String,
    faces: Vec<u32>,
    mono: bool,
}

struct FamilyRow {
    name: Seq<char>,
    faces: Seq<u32>,
    mono: bool,
}

spec fn rows(s: Seq<FamilyInfo>) -> Seq<FamilyRow> {
    s.map_values(|f: FamilyInfo| FamilyRow { name: f.name@, faces: f.faces@, mono: f.mono })
}

spec fn row_of(faces: Seq<FaceView>, name: Seq<char>) -> FamilyRow {
    FamilyRow { name, faces: ids_of(faces, name), mono: is_mono(faces, name) }
}

/// The table that lookups go by: one row for each family.
spec fn table_of(faces: Seq<FaceView>) -> Seq<FamilyRow> {
    names_of(faces).map_values(|n: Seq<char>| row_of(faces, n))
}

/// One font file's bytes plus the face index inside them.
///
/// Whoever holds it keeps the bytes alive, whatever the cache does.
pub struct FaceData {
    bytes: Arc<Vec<u8>>,
    index: u32,
}

impl FaceData {
    /// The file's bytes, in contracts.
    pub closed spec fn bytes_view(&self) -> Seq<u8> {
        self.bytes@
    }

    /// The face index, in contracts.
    pub closed spec fn index_view(&self) -> u32 {
        self.index
    }

    /// The file's bytes.
    pub fn data(&self) -> (d: &[u8])
        ensures
            d@ == self.bytes_view(),
    {
        self.bytes.as_slice()
    }

    /// Face index within the file.
    pub fn index(&self) -> (i: u32)
        ensures
            i == self.index_view(),
    {
        self.index
    }
}

/// What asking for a face's bytes came to.
pub enum Lookup {
    /// There is no such face.
    Unknown,
    /// The bytes are there.
    Ready(FaceData),
    /// The file has to be read first.
    Read {
        /// Which file.
        file: u32,
        /// Where it is.
        path: String,
    },
}

/// The font index.
///
/// Holds no font bytes until a face is actually used.
pub struct FontDb {
    files: Vec<String>,
    faces: Vec<FaceRecord>,
    families: Vec<FamilyInfo>,
    scan_nanos: u64,
    from_cache: bool,
    cache: Cache,
}

/// What a [`FontDb`] holds, as mathematical values.
pub struct DbView {
    /// Where each file is.
    pub files: Seq<Seq<char>>,
    /// The faces, in the order they were discovered.
    pub faces: Seq<FaceView>,
    /// How long the scan took, in nanoseconds.
    pub scan_nanos: u64,
    /// Whether the index came off the disk.
    pub from_cache: bool,
    /// The loaded files.
    pub cache: CacheView,
}

impl View for FontDb {
    type V = DbView;

    closed spec fn view(&self) -> DbView {
        DbView {
            files: texts(self.files@),
            faces: faces_view(self.faces@),
            scan_nanos: self.scan_nanos,
            from_cache: self.from_cache,
            cache: self.cache@,
        }
    }
}

/// The database of an index, with nothing loaded yet.
pub open spec fn ingested(ix: IndexView, from_cache: bool, scan_nanos: u64, limit: usize) -> DbView {
    DbView {
        files: ix.files.map_values(|f: FileView| f.path),
        faces: ix.faces,
        scan_nanos,
        from_cache,
        cache: CacheView {
            entries: Seq::empty(),
            limit,
            frame: 0,
            loads: 0,
            evictions: 0,
            releases: 0,
        },
    }
}

/// Where the file of a face is.
pub open spec fn path_of_face(v: DbView, font: FontId) -> Option<Seq<char>> {
    if font.0 < v.faces.len() && v.faces[font.0 as int].file < v.files.len() {
        Some(v.files[v.faces[font.0 as int].file as int])
    } else {
        None
    }
}

/// The database after a face was asked for, which counts as a use of a file
/// that is there.
pub open spec fn asked_for(v: DbView, font: FontId) -> DbView {
    if font.0 < v.faces.len() {
        DbView { cache: touched(v.cache, v.faces[font.0 as int].file), ..v }
    } else {
        v
    }
}

/// The database after the bytes of a face's file were taken in.
pub open spec fn read_in(v: DbView, font: FontId, bytes: Seq<u8>) -> DbView {
    DbView { cache: taken_in(v.cache, v.faces[font.0 as int].file, bytes), ..v }
}

proof fn lemma_names(faces: Seq<FaceView>)
    ensures
        names_of(faces).no_duplicates(),
        forall|i: int| 0 <= i < faces.len() ==> names_of(faces).contains(key(#[trigger] faces[i])),
        names_of(faces).len() <= faces.len(),
    decreases faces.len(),
{
    if faces.len() > 0 {
        let head = faces.drop_last();
        let before = names_of(head);
        let after = names_of(faces);
        lemma_names(head);
        assert forall|i: int| 0 <= i < faces.len() implies after.contains(
            key(#[trigger] faces[i]),
        ) by {
            if i < head.len() {
                assert(faces[i] == head[i]);
                let k = choose|k: int| 0 <= k < before.len() && before[k] == key(head[i]);
                assert(after[k] == key(head[i]));
            } else if !before.contains(key(faces[i])) {
                assert(after[before.len() as int] == key(faces[i]));
            }
        }
    }
}

proof fn lemma_ids(faces: Seq<FaceView>, name: Seq<char>)
    requires
        faces.len() <= 0x1_0000_0000,
    ensures
        forall|i: int|
            0 <= i < ids_of(faces, name).len() ==> (#[trigger] ids_of(faces, name)[i]) < faces.len()
                && key(faces[ids_of(faces, name)[i] as int]) == name,
        names_of(faces).contains(name) <==> ids_of(faces, name).len() > 0,
    decreases faces.len(),
{
    if faces.len() > 0 {
        let head = faces.drop_last();
        lemma_ids(head, name);
        let before = ids_of(head, name);
        let after = ids_of(faces, name);
        assert forall|i: int| 0 <= i < after.len() implies (#[trigger] after[i]) < faces.len()
            && key(faces[after[i] as int]) == name by {
            if i < before.len() {
                assert(after[i] == before[i]);
                assert(faces[before[i] as int] == head[before[i] as int]);
            }
        }
        let a = names_of(head);
        let b = names_of(faces);
        if a.contains(name) {
            let k = choose|k: int| 0 <= k < a.len() && a[k] == name;
            assert(b[k] == name);
        }
        if key(faces.last()) == name && !a.contains(name) {
            assert(b[a.len() as int] == name);
        }
        if b.contains(name) && !a.contains(name) {
            let k = choose|k: int| 0 <= k < b.len() && b[k] == name;
            if k < a.len() {
                assert(a[k] == name);
            }
        }
    }
}

proof fn lemma_present(wanted: Seq<Seq<char>>, names: Seq<Seq<char>>)
    ensures
        forall|i: int|
            0 <= i < present(wanted, names).len() ==> names.contains(
                #[trigger] present(wanted, names)[i],
            ),
    decreases wanted.len(),
{
    if wanted.len() > 0 {
        let before = present(wanted.drop_last(), names);
        let after = present(wanted, names);
        lemma_present(wanted.drop_last(), names);
        assert forall|i: int| 0 <= i < after.len() implies names.contains(#[trigger] after[i]) by {
            if i < before.len() {
                assert(after[i] == before[i]);
            }
        }
    }
}

proof fn lemma_fitting(faces: Seq<FaceView>, names: Seq<Seq<char>>, generic: FamilyView)
    ensures
        forall|i: int|
            0 <= i < fitting(faces, names, generic).len() ==> names.contains(
                #[trigger] fitting(faces, names, generic)[i],
            ),
    decreases names.len(),
{
    if names.len() > 0 {
        let head = names.drop_last();
        lemma_fitting(faces, head, generic);
        let before = fitting(faces, head, generic);
        let after = fitting(faces, names, generic);
        assert forall|i: int| 0 <= i < after.len() implies names.contains(#[trigger] after[i]) by {
            if i < before.len() {
                assert(after[i] == before[i]);
                let k = choose|k: int| 0 <= k < head.len() && head[k] == before[i];
                assert(names[k] == after[i]);
            } else {
                assert(names[names.len() - 1] == after[i]);
            }
        }
    }
}

proof fn lemma_least(s: Seq<Seq<char>>)
    ensures
        match least(s) {
            Some(n) => s.contains(n),
            None => s.len() == 0,
        },
    decreases s.len(),
{
    if s.len() > 0 {
        let head = s.drop_last();
        lemma_least(head);
        assert(s[s.len() - 1] == s.last());
        if let Some(b) = least(head) {
            let k = choose|k: int| 0 <= k < head.len() && head[k] == b;
            assert(s[k] == b);
        }
    }
}

proof fn lemma_alias_first(faces: Seq<FaceView>, generic: FamilyView)
    ensures
        match alias_first(faces, generic) {
            Some(n) => names_of(faces).contains(n),
            None => names_of(faces).len() == 0,
        },
{
    let names = names_of(faces);
    lemma_present(prefs_of(generic), names);
    lemma_fitting(faces, names, generic);
    lemma_least(fitting(faces, names, generic));
    lemma_least(names);
    if let Some(n) = least(fitting(faces, names, generic)) {
        let fit = fitting(faces, names, generic);
        let k = choose|k: int| 0 <= k < fit.len() && fit[k] == n;
        assert(names.contains(fit[k]));
    }
}

/// A request finds no face only in an empty database, and then there is
/// nothing to fall back on either; in any other, there is.
pub proof fn only_an_empty_database_has_no_face(
    faces: Seq<FaceView>,
    family: FamilyView,
    weight: u16,
    italic: bool,
)
    requires
        faces.len() <= 0x1_0000_0000,
    ensures
        selected(faces, family, weight, italic) is None <==> faces.len() == 0,
        fallback_chain(faces, family, weight, italic).len() == 0 <==> faces.len() == 0,
{
    let names = names_of(faces);
    let generic = generic_of(family);
    lemma_names(faces);
    lemma_alias_first(faces, family);
    lemma_alias_first(faces, FamilyView::Sans);
    if faces.len() > 0 {
        assert(names.contains(key(faces[0])));
        let name = resolved_family(faces, family)->0;
        assert(names.contains(name));
        lemma_ids(faces, name);
    } else {
        lemma_present(prefs_of(generic), names);
        let liked = present(prefs_of(generic), names);
        if liked.len() > 0 {
            assert(names.contains(liked[0]));
        }
        let rest = others(fitting(faces, names, generic), liked);
        assert(rest.len() == 0);
        assert(text_sorted(rest).len() == 0);
    }
}

/// What one more face does to the row of a family.
proof fn lemma_row_push(faces: Seq<FaceView>, f: FaceView, name: Seq<char>)
    ensures
        ids_of(faces.push(f), name) == (if key(f) == name {
            ids_of(faces, name).push(faces.len() as u32)
        } else {
            ids_of(faces, name)
        }),
        is_mono(faces.push(f), name) == (is_mono(faces, name) || (key(f) == name && (f.monospace
            || holds(name, "mono"@)))),
{
    assert(faces.push(f).drop_last() =~= faces);
}

proof fn lemma_absent(faces: Seq<FaceView>, name: Seq<char>)
    requires
        !names_of(faces).contains(name),
    ensures
        ids_of(faces, name).len() == 0,
        !is_mono(faces, name),
    decreases faces.len(),
{
    if faces.len() > 0 {
        let a = names_of(faces.drop_last());
        let b = names_of(faces);
        if a.contains(name) {
            let k = choose|k: int| 0 <= k < a.len() && a[k] == name;
            assert(b[k] == name);
        }
        if key(faces.last()) == name {
            assert(b[a.len() as int] == name);
        }
        lemma_absent(faces.drop_last(), name);
    }
}

fn pref_list(generic: &Family) -> (out: Vec<&'static str>)
    ensures
        out@.map_values(|s: &'static str| s@) == prefs_of(generic@),
{
    let mut out: Vec<&'static str> = Vec::new();
    match generic {
        Family::Mono => {
            out.push("noto sans mono");
            out.push("dejavu sans mono");
            out.push("liberation mono");
            out.push("droid sans mono");
        },
        Family::Serif => {
            out.push("noto serif");
            out.push("dejavu serif");
            out.push("liberation serif");
            out.push("droid serif");
        },
        _ => {
            out.push("noto sans");
            out.push("dejavu sans");
            out.push("cantarell");
            out.push("liberation sans");
            out.push("droid sans");
        },
    }
    assert(out@.map_values(|s: &'static str| s@) =~= prefs_of(generic@));
    out
}

impl FontDb {
    /// The invariant: the family table is that of the faces, and the cache
    /// is well-formed and within its cap, but for one file.
    pub closed spec fn wf(&self) -> bool {
        &&& self.cache.wf()
        &&& within_cap(self.cache@)
        &&& self@.faces.len() <= 0x1_0000_0000
        &&& rows(self.families@) == table_of(self@.faces)
    }

    /// What the invariant says: each loaded file is counted, they fit the cap
    /// unless they are one file, and there is an id for every face.
    pub proof fn every_load_is_accounted_for(&self)
        requires
            self.wf(),
        ensures
            sane(self@.cache),
            within_cap(self@.cache),
            self@.faces.len() <= 0x1_0000_0000,
    {
        self.cache.every_load_is_accounted_for();
    }

    /// Turn an index into lookup tables. Nothing is loaded yet, and at most
    /// `limit` bytes of font files are kept.
    pub fn ingest(index: Index, from_cache: bool, scan_nanos: u64, limit: usize) -> (db: FontDb)
        requires
            index@.faces.len() <= 0x1_0000_0000,
        ensures
            db.wf(),
            db@ == ingested(index@, from_cache, scan_nanos, limit),
    {
        let ghost want = index@;
        let mut files: Vec<String> = Vec::new();
        let mut i: usize = 0;
        while i < index.files.len()
            invariant
                i <= index.files.len(),
                want == index@,
                files@.len() == i,
                forall|k: int| 0 <= k < i ==> (#[trigger] files@[k])@ == want.files[k].path,
            decreases index.files.len() - i,
        {
            files.push(owned(index.files[i].path.as_str()));
            i += 1;
        }
        assert(texts(files@) =~= want.files.map_values(|f: FileView| f.path));
        let mut db = FontDb {
            files,
            faces: Vec::new(),
            families: Vec::new(),
            scan_nanos,
            from_cache,
            cache: Cache::new(limit),
        };
        let mut queue = index.faces;
        let ghost all = want.faces;
        let ghost start = queue@;
        let ghost mut k: int = 0;
        assert(faces_view(db.faces@) =~= all.take(0));
        assert(rows(db.families@) =~= table_of(all.take(0)));
        while queue.len() > 0
            invariant
                0 <= k <= start.len(),
                all == faces_view(start),
                all.len() <= 0x1_0000_0000,
                queue@ == start.skip(k),
                db.wf(),
                db@ == (DbView { faces: all.take(k), ..db@ }),
                db.files == files,
                db.scan_nanos == scan_nanos,
                db.from_cache == from_cache,
                db.cache@ == (CacheView {
                    entries: Seq::empty(),
                    limit,
                    frame: 0,
                    loads: 0,
                    evictions: 0,
                    releases: 0,
                }),
            decreases queue@.len(),
        {
            let f = queue.remove(0);
            proof {
                assert(f == start[k]);
                assert(queue@ =~= start.skip(k + 1));
                assert(all.take(k + 1) =~= all.take(k).push(f@));
            }
            db.add_face(f);
            proof {
                k = k + 1;
            }
        }
        assert(all.take(k) =~= all);
        db
    }

    fn add_face(&mut self, f: FaceRecord)
        requires
            old(self).wf(),
            old(self)@.faces.len() < 0x1_0000_0000,
        ensures
            final(self).wf(),
            final(self)@ == (DbView { faces: old(self)@.faces.push(f@), ..old(self)@ }),
            final(self).files == old(self).files,
            final(self).scan_nanos == old(self).scan_nanos,
            final(self).from_cache == old(self).from_cache,
            final(self).cache == old(self).cache,
    {
        let ghost faces = self@.faces;
        let ghost table = table_of(faces);
        let ghost fv = f@;
        let v = chars_of(f.family.as_str());
        let low = lowered(v.as_slice());
        let word = chars_of("mono");
        let mono = f.monospace || contains_text(low.as_slice(), word.as_slice());
        let name = string_of(low.as_slice());
        let id: u32 = self.faces.len() as u32;
        proof {
            lemma_names(faces);
            lemma_names(faces.push(fv));
            assert(faces.push(fv).drop_last() =~= faces);
        }
        match self.family_at(name.as_str()) {
            Some(i) => {
                let ghost before = self.families@;
                let info = &mut self.families[i];
                info.faces.push(id);
                info.mono = info.mono || mono;
                self.faces.push(f);
                proof {
                    let now = faces.push(fv);
                    assert(self@.faces =~= now);
                    assert(names_of(now) == names_of(faces));
                    assert(before.len() == rows(before).len());
                    assert(self.families@.len() == before.len());
                    assert forall|k: int| 0 <= k < table_of(now).len() implies #[trigger] rows(
                        self.families@,
                    )[k] == table_of(now)[k] by {
                        let n = names_of(faces)[k];
                        lemma_row_push(faces, fv, n);
                        assert(table_of(now)[k] == row_of(now, n));
                        assert(table[k] == row_of(faces, n));
                        assert(rows(before)[k] == table[k]);
                        assert(before[k].faces@ == ids_of(faces, n));
                        if k == i {
                            assert(n == key(fv));
                            assert(self.families@[k].faces@ == before[k].faces@.push(id));
                            assert(rows(self.families@)[k] == row_of(now, n));
                        } else {
                            assert(names_of(faces)[i as int] == key(fv));
                            assert(n != key(fv));
                        }
                    }
                    assert(rows(self.families@) =~= table_of(now));
                }
            },
            None => {
                let mut ids: Vec<u32> = Vec::new();
                ids.push(id);
                let ghost before = self.families@;
                self.families.push(FamilyInfo { name, faces: ids, mono });
                self.faces.push(f);
                proof {
                    let now = faces.push(fv);
                    assert(self@.faces =~= now);
                    assert(names_of(now) == names_of(faces).push(key(fv)));
                    lemma_absent(faces, key(fv));
                    lemma_row_push(faces, fv, key(fv));
                    assert(ids_of(faces, key(fv)) =~= Seq::<u32>::empty());
                    assert(ids@ =~= ids_of(now, key(fv)));
                    assert(rows(before) == table);
                    assert(before.len() == rows(before).len());
                    assert(before.len() == names_of(faces).len());
                    assert forall|k: int| 0 <= k < table_of(now).len() implies #[trigger] rows(
                        self.families@,
                    )[k] == table_of(now)[k] by {
                        let n = names_of(now)[k];
                        lemma_row_push(faces, fv, n);
                        assert(table_of(now)[k] == row_of(now, n));
                        if k < before.len() {
                            assert(n == names_of(faces)[k]);
                            assert(names_of(faces).contains(n));
                            assert(rows(before)[k] == table[k]);
                        }
                    }
                    assert(rows(self.families@) =~= table_of(now));
                }
            },
        }
    }

    fn family_at(&self, name: &str) -> (r: Option<usize>)
        requires
            self.wf(),
        ensures
            match r {
                Some(i) => i < self.families@.len() && i < names_of(self@.faces).len() && names_of(
                    self@.faces,
                )[i as int] == name@,
                None => !names_of(self@.faces).contains(name@),
            },
    {
        let ghost names = names_of(self@.faces);
        assert(rows(self.families@).len() == names.len());
        let mut i: usize = 0;
        while i < self.families.len()
            invariant
                i <= self.families@.len(),
                names == names_of(self@.faces),
                rows(self.families@) == table_of(self@.faces),
                self.families@.len() == names.len(),
                forall|k: int| 0 <= k < i ==> names[k] != name@,
            decreases self.families@.len() - i,
        {
            assert(rows(self.families@)[i as int] == table_of(self@.faces)[i as int]);
            if text_eq(self.families[i].name.as_str(), name) {
                return Some(i);
            }
            i += 1;
        }
        None
    }

    /// True when nothing was found.
    pub fn is_empty(&self) -> (r: bool)
        ensures
            r == (self@.faces.len() == 0),
    {
        self.faces.len() == 0
    }

    /// Number of faces indexed (a collection contributes several).
    pub fn len(&self) -> (n: usize)
        ensures
            n == self@.faces.len(),
    {
        self.faces.len()
    }

    /// How long the scan took, in nanoseconds.
    pub fn scan_time(&self) -> (n: u64)
        ensures
            n == self@.scan_nanos,
    {
        self.scan_nanos
    }

    /// Whether the index came off the on-disk cache instead of a full read
    /// of every font file.
    pub fn used_index_cache(&self) -> (r: bool)
        ensures
            r == self@.from_cache,
    {
        self.from_cache
    }

    /// Family name of a face, as spelled in the font.
    pub fn family_name(&self, font: FontId) -> (r: Option<&str>)
        ensures
            match r {
                Some(s) => font.0 < self@.faces.len() && s@ == self@.faces[font.0 as int].family,
                None => font.0 >= self@.faces.len(),
            },
    {
        if (font.0 as usize) < self.faces.len() {
            Some(self.faces[font.0 as usize].family.as_str())
        } else {
            None
        }
    }

    /// Path of the file a face lives in.
    pub fn face_path(&self, font: FontId) -> (r: Option<&str>)
        ensures
            match r {
                Some(s) => path_of_face(self@, font) == Some(s@),
                None => path_of_face(self@, font) is None,
            },
    {
        if (font.0 as usize) >= self.faces.len() {
            return None;
        }
        let file: usize = self.faces[font.0 as usize].file as usize;
        if file < self.files.len() {
            Some(self.files[file].as_str())
        } else {
            None
        }
    }

    fn names(&self) -> (out: Vec<String>)
        requires
            self.wf(),
        ensures
            texts(out@) == names_of(self@.faces),
    {
        let ghost names = names_of(self@.faces);
        assert(rows(self.families@).len() == names.len());
        let mut out: Vec<String> = Vec::new();
        let mut i: usize = 0;
        while i < self.families.len()
            invariant
                i <= self.families@.len(),
                names == names_of(self@.faces),
                rows(self.families@) == table_of(self@.faces),
                self.families@.len() == names.len(),
                out@.len() == i,
                forall|k: int| 0 <= k < i ==> (#[trigger] out@[k])@ == names[k],
            decreases self.families@.len() - i,
        {
            assert(rows(self.families@)[i as int] == table_of(self@.faces)[i as int]);
            out.push(owned(self.families[i].name.as_str()));
            i += 1;
        }
        assert(texts(out@) =~= names);
        out
    }

    fn family_fits(&self, i: usize, generic: &Family) -> (r: bool)
        requires
            self.wf(),
            i < self.families@.len(),
        ensures
            i < names_of(self@.faces).len(),
            r == fits(self@.faces, names_of(self@.faces)[i as int], generic@),
    {
        assert(rows(self.families@).len() == names_of(self@.faces).len());
        assert(rows(self.families@)[i as int] == table_of(self@.faces)[i as int]);
        let info = &self.families[i];
        let name = chars_of(info.name.as_str());
        let serif_word = chars_of("serif");
        let sans_word = chars_of("sans");
        let serif = !info.mono && contains_text(name.as_slice(), serif_word.as_slice())
            && !contains_text(name.as_slice(), sans_word.as_slice());
        match generic {
            Family::Mono => info.mono,
            Family::Serif => serif,
            _ => !info.mono && !serif,
        }
    }

    fn fitting_names(&self, generic: &Family) -> (out: Vec<String>)
        requires
            self.wf(),
        ensures
            texts(out@) == fitting(self@.faces, names_of(self@.faces), generic@),
    {
        let names = self.names();
        let ghost all = names_of(self@.faces);
        let mut out: Vec<String> = Vec::new();
        let mut i: usize = 0;
        assert(rows(self.families@).len() == all.len());
        assert(all.take(0) =~= Seq::<Seq<char>>::empty());
        assert(texts(out@) =~= fitting(self@.faces, all.take(0), generic@));
        while i < names.len()
            invariant
                self.wf(),
                i <= names.len(),
                all == names_of(self@.faces),
                texts(names@) == all,
                self.families@.len() == all.len(),
                texts(out@) == fitting(self@.faces, all.take(i as int), generic@),
            decreases names.len() - i,
        {
            proof {
                assert(all.take(i + 1).drop_last() =~= all.take(i as int));
                assert(all.take(i + 1).last() == all[i as int]);
                assert(texts(names@)[i as int] == names@[i as int]@);
            }
            if self.family_fits(i, generic) {
                let ghost before = texts(out@);
                out.push(owned(names[i].as_str()));
                assert(texts(out@) =~= before.push(all[i as int]));
            }
            i += 1;
        }
        assert(all.take(i as int) =~= all);
        out
    }

    fn liked(&self, generic: &Family) -> (out: Vec<String>)
        requires
            self.wf(),
        ensures
            texts(out@) == present(prefs_of(generic@), names_of(self@.faces)),
    {
        let prefs = pref_list(generic);
        let ghost all = prefs_of(generic@);
        let mut out: Vec<String> = Vec::new();
        let mut i: usize = 0;
        assert(all.take(0) =~= Seq::<Seq<char>>::empty());
        assert(texts(out@) =~= present(all.take(0), names_of(self@.faces)));
        while i < prefs.len()
            invariant
                self.wf(),
                i <= prefs.len(),
                all == prefs@.map_values(|s: &'static str| s@),
                texts(out@) == present(all.take(i as int), names_of(self@.faces)),
            decreases prefs.len() - i,
        {
            proof {
                assert(all.take(i + 1).drop_last() =~= all.take(i as int));
                assert(all.take(i + 1).last() == prefs@[i as int]@);
            }
            if self.family_at(prefs[i]).is_some() {
                let ghost before = texts(out@);
                out.push(prefs[i].to_owned());
                assert(texts(out@) =~= before.push(prefs@[i as int]@));
            }
            i += 1;
        }
        assert(all.take(i as int) =~= all);
        out
    }

    fn alias_name(&self, generic: &Family) -> (r: Option<String>)
        requires
            self.wf(),
        ensures
            text_view(r) == alias_first(self@.faces, generic@),
    {
        let liked = self.liked(generic);
        if liked.len() > 0 {
            let ghost all = texts(liked@);
            assert(all[0] == liked@[0]@);
            return Some(owned(liked[0].as_str()));
        }
        let fit = self.fitting_names(generic);
        match first_name(&fit) {
            Some(n) => Some(n),
            None => {
                let names = self.names();
                first_name(&names)
            },
        }
    }

    fn alias_list(&self, generic: &Family) -> (out: Vec<String>)
        requires
            self.wf(),
        ensures
            texts(out@) == alias_families(self@.faces, generic@),
    {
        let liked = self.liked(generic);
        let fit = self.fitting_names(generic);
        let rest = sort_others(&fit, &liked);
        let ghost a = texts(liked@);
        let ghost b = texts(rest@);
        let mut out = liked;
        let mut i: usize = 0;
        assert(texts(out@) =~= a + b.take(0));
        while i < rest.len()
            invariant
                i <= rest.len(),
                b == texts(rest@),
                texts(out@) == a + b.take(i as int),
            decreases rest.len() - i,
        {
            let ghost before = texts(out@);
            out.push(owned(rest[i].as_str()));
            proof {
                assert(b[i as int] == rest@[i as int]@);
                assert(b.take(i + 1) =~= b.take(i as int).push(b[i as int]));
                assert(texts(out@) =~= before.push(b[i as int]));
                assert(texts(out@) =~= a + b.take(i + 1));
            }
            i += 1;
        }
        assert(b.take(i as int) =~= b);
        out
    }

    fn family_for(&self, family: &Family) -> (r: Option<String>)
        requires
            self.wf(),
        ensures
            text_view(r) == resolved_family(self@.faces, family@),
    {
        match family {
            Family::Named(name) => {
                let v = chars_of(name.as_str());
                let low = lowered(v.as_slice());
                let text = string_of(low.as_slice());
                match self.family_at(text.as_str()) {
                    Some(i) => {
                        assert(names_of(self@.faces).contains(text@));
                        Some(text)
                    },
                    None => self.alias_name(&Family::Sans),
                }
            },
            _ => self.alias_name(family),
        }
    }

    fn pick_in_family<M>(&self, name: &str, style: &TextStyle<M>) -> (r: Option<u32>)
        requires
            self.wf(),
        ensures
            r == picked(self@.faces, name@, style.weight, style.italic),
            r matches Some(id) ==> id < self@.faces.len(),
    {
        proof {
            lemma_ids(self@.faces, name@);
        }
        let at = match self.family_at(name) {
            Some(i) => i,
            None => {
                return None;
            },
        };
        assert(rows(self.families@)[at as int] == table_of(self@.faces)[at as int]);
        let ids = &self.families[at].faces;
        let ghost faces = self@.faces;
        let ghost all = ids_of(faces, name@);
        assert(ids@ == all);
        let mut best: Option<(u32, u32)> = None;
        let mut i: usize = 0;
        assert(all.take(0) =~= Seq::<u32>::empty());
        while i < ids.len()
            invariant
                i <= ids.len(),
                ids@ == all,
                faces == self@.faces,
                forall|k: int| 0 <= k < all.len() ==> (#[trigger] all[k]) < faces.len(),
                match best {
                    Some(b) => closest(faces, all.take(i as int), style.weight, style.italic)
                        == Some(b.1) && b.0 == distance(
                        faces[b.1 as int],
                        style.weight,
                        style.italic,
                    ) && b.1 < faces.len(),
                    None => closest(
                        faces,
                        all.take(i as int),
                        style.weight,
                        style.italic,
                    ) is None,
                },
            decreases ids.len() - i,
        {
            let id = ids[i];
            proof {
                assert(all.take(i + 1).drop_last() =~= all.take(i as int));
                assert(all.take(i + 1).last() == id);
                assert(all[i as int] < faces.len());
            }
            let score = attr_distance(&self.faces[id as usize], style);
            assert(faces[id as int] == self.faces@[id as int]@);
            match best {
                Some(b) => {
                    if score < b.0 {
                        best = Some((score, id));
                    }
                },
                None => {
                    best = Some((score, id));
                },
            }
            i += 1;
        }
        assert(all.take(i as int) =~= all);
        match best {
            Some(b) => Some(b.1),
            None => None,
        }
    }

    /// Best face for a style, or `None` when the index is empty.
    pub fn select<M>(&self, style: &TextStyle<M>) -> (r: Option<FontId>)
        requires
            self.wf(),
        ensures
            match r {
                Some(id) => selected(self@.faces, style.family@, style.weight, style.italic) == Some(
                    id.0,
                ) && id.0 < self@.faces.len(),
                None => selected(self@.faces, style.family@, style.weight, style.italic) is None,
            },
    {
        match self.family_for(&style.family) {
            Some(name) => match self.pick_in_family(name.as_str(), style) {
                Some(id) => Some(FontId(id)),
                None => None,
            },
            None => None,
        }
    }

    /// The fallback chain for a style: the selected face first, then one
    /// face from every other family of the same alias, in alias order.
    ///
    /// Nothing is read off disk to build it.
    pub fn fallbacks<M>(&self, style: &TextStyle<M>) -> (out: Vec<FontId>)
        requires
            self.wf(),
        ensures
            out@.map_values(|f: FontId| f.0) == fallback_chain(
                self@.faces,
                style.family@,
                style.weight,
                style.italic,
            ),
    {
        let ghost faces = self@.faces;
        let mut out: Vec<FontId> = Vec::new();
        let mut seen: Vec<String> = Vec::new();
        let first = self.select(style);
        if let Some(id) = first {
            out.push(id);
            let v = chars_of(self.faces[id.0 as usize].family.as_str());
            let low = lowered(v.as_slice());
            seen.push(string_of(low.as_slice()));
            assert(texts(seen@) =~= seq![key(faces[id.0 as int])]);
        } else {
            assert(texts(seen@) =~= Seq::<Seq<char>>::empty());
        }
        let generic = match &style.family {
            Family::Mono => Family::Mono,
            Family::Serif => Family::Serif,
            _ => Family::Sans,
        };
        let names = self.alias_list(&generic);
        let ghost all = texts(names@);
        let ghost got = out@.map_values(|f: FontId| f.0);
        let ghost want = got + one_each(faces, all, texts(seen@), style.weight, style.italic);
        proof {
            match first {
                Some(id) => {
                    assert(got =~= seq![id.0]);
                },
                None => {
                    assert(got =~= Seq::<u32>::empty());
                    assert(want =~= one_each(faces, all, texts(seen@), style.weight, style.italic));
                },
            }
            assert(want == fallback_chain(faces, style.family@, style.weight, style.italic));
            assert(all.skip(0) =~= all);
        }
        let mut i: usize = 0;
        while i < names.len()
            invariant
                self.wf(),
                faces == self@.faces,
                i <= names.len(),
                all == texts(names@),
                out@.map_values(|f: FontId| f.0) + one_each(
                    faces,
                    all.skip(i as int),
                    texts(seen@),
                    style.weight,
                    style.italic,
                ) == want,
            decreases names.len() - i,
        {
            let name = names[i].as_str();
            let ghost so_far = out@.map_values(|f: FontId| f.0);
            let ghost known = texts(seen@);
            proof {
                assert(all.skip(i as int)[0] == name@);
                assert(all.skip(i as int).drop_first() =~= all.skip(i + 1));
            }
            if !among(&seen, name) {
                if let Some(id) = self.pick_in_family(name, style) {
                    out.push(FontId(id));
                    let v = chars_of(self.faces[id as usize].family.as_str());
                    let low = lowered(v.as_slice());
                    seen.push(string_of(low.as_slice()));
                    proof {
                        assert(texts(seen@) =~= known.push(key(faces[id as int])));
                        let now = out@.map_values(|f: FontId| f.0);
                        assert(now =~= so_far.push(id));
                        let tail = one_each(
                            faces,
                            all.skip(i + 1),
                            texts(seen@),
                            style.weight,
                            style.italic,
                        );
                        assert(now + tail =~= so_far + (seq![id] + tail));
                    }
                }
            }
            i += 1;
        }
        proof {
            let now = out@.map_values(|f: FontId| f.0);
            assert(all.skip(i as int) =~= Seq::<Seq<char>>::empty());
            assert(now + Seq::<u32>::empty() =~= now);
        }
        out
    }

    // -- font bytes ---------------------------------------------------

    /// Ask for the bytes of a face. Where they are not there, whoever asks
    /// reads the file and hands the bytes to [`FontDb::loaded`].
    pub fn face(&mut self, font: FontId) -> (r: Lookup)
        requires
            old(self).wf(),
        ensures
            final(self).wf(),
            ({
                let v = old(self)@;
                let f = v.faces[font.0 as int];
                let at = slot_of(v.cache.entries, f.file);
                if font.0 >= v.faces.len() {
                    r is Unknown
                } else if at is Some {
                    &&& r is Ready
                    &&& r->0.bytes_view() == v.cache.entries[at->0].bytes
                    &&& r->0.index_view() == f.index
                } else if f.file < v.files.len() {
                    &&& r matches Lookup::Read { file, path } && file == f.file && path@
                        == v.files[f.file as int]
                } else {
                    r is Unknown
                }
            }),
            final(self)@ == asked_for(old(self)@, font),
    {
        if (font.0 as usize) >= self.faces.len() {
            return Lookup::Unknown;
        }
        let file = self.faces[font.0 as usize].file;
        let index = self.faces[font.0 as usize].index;
        proof {
            self.cache.every_load_is_accounted_for();
            lemma_touched(self.cache@, file);
        }
        match self.cache.touch(file) {
            Some(bytes) => Lookup::Ready(FaceData { bytes, index }),
            None => {
                if (file as usize) < self.files.len() {
                    Lookup::Read { file, path: owned(self.files[file as usize].as_str()) }
                } else {
                    Lookup::Unknown
                }
            },
        }
    }

    /// Take in the bytes of a face's file that was just read, and make room
    /// for them.
    pub fn loaded(&mut self, font: FontId, bytes: Vec<u8>) -> (d: FaceData)
        requires
            old(self).wf(),
            font.0 < old(self)@.faces.len(),
            slot_of(old(self)@.cache.entries, old(self)@.faces[font.0 as int].file) is None,
            old(self)@.cache.loads < u64::MAX,
            total(old(self)@.cache.entries) + bytes@.len() <= usize::MAX,
        ensures
            final(self).wf(),
            d.bytes_view() == bytes@,
            d.index_view() == old(self)@.faces[font.0 as int].index,
            final(self)@ == read_in(old(self)@, font, bytes@),
    {
        let file = self.faces[font.0 as usize].file;
        let index = self.faces[font.0 as usize].index;
        proof {
            self.cache.every_load_is_accounted_for();
            lemma_taken_in(self.cache@, file, bytes@);
        }
        let bytes = Arc::new(bytes);
        let held = Arc::clone(&bytes);
        self.cache.keep(file, bytes);
        FaceData { bytes: held, index }
    }

    /// Bump the frame stamp the cache records. This drops nothing.
    pub fn next_frame(&mut self)
        requires
            old(self).wf(),
            old(self)@.cache.frame < u64::MAX,
        ensures
            final(self).wf(),
            final(self)@ == (DbView { cache: framed(old(self)@.cache), ..old(self)@ }),
    {
        self.cache.next_frame();
    }

    /// Drop every file untouched for a frame, whatever the cap says.
    pub fn release_idle(&mut self)
        requires
            old(self).wf(),
        ensures
            final(self).wf(),
            final(self)@ == (DbView { cache: swept(old(self)@.cache), ..old(self)@ }),
    {
        proof {
            self.cache.every_load_is_accounted_for();
            lemma_swept(self.cache@);
        }
        self.cache.sweep_idle();
    }

    /// Set the cap and trim to it immediately.
    pub fn set_cache_limit(&mut self, bytes: usize)
        requires
            old(self).wf(),
        ensures
            final(self).wf(),
            final(self)@ == (DbView {
                cache: trimmed_to_cap(CacheView { limit: bytes, ..old(self)@.cache }, None),
                ..old(self)@
            }),
    {
        self.cache.set_limit(bytes);
        proof {
            self.cache.every_load_is_accounted_for();
            lemma_trimmed_to_cap(self.cache@);
        }
        self.cache.trim(None);
    }

    /// Font files resident right now.
    pub fn loaded_files(&self) -> (n: usize)
        ensures
            n == self@.cache.entries.len(),
    {
        self.cache.len()
    }

    /// Bytes of font data resident right now.
    pub fn loaded_bytes(&self) -> (n: usize)
        requires
            self.wf(),
        ensures
            n == total(self@.cache.entries),
    {
        self.cache.bytes()
    }

    /// Files read off disk since startup.
    pub fn loads(&self) -> (n: u64)
        ensures
            n == self@.cache.loads,
    {
        self.cache.loads()
    }

    /// Files dropped by the cap since startup.
    pub fn evictions(&self) -> (n: u64)
        ensures
            n == self@.cache.evictions,
    {
        self.cache.evictions()
    }

    /// Files that went idle since startup.
    pub fn releases(&self) -> (n: u64)
        ensures
            n == self@.cache.releases,
    {
        self.cache.releases()
    }

    /// The cap in bytes.
    pub fn cache_limit(&self) -> (n: usize)
        ensures
            n == self@.cache.limit,
    {
        self.cache.limit()
    }
}

fn among(list: &Vec<String>, name: &str) -> (r: bool)
    ensures
        r == texts(list@).contains(name@),
{
    let ghost all = texts(list@);
    let mut i: usize = 0;
    while i < list.len()
        invariant
            i <= list.len(),
            all == texts(list@),
            forall|k: int| 0 <= k < i ==> all[k] != name@,
        decreases list.len() - i,
    {
        assert(all[i as int] == list@[i as int]@);
        if text_eq(list[i].as_str(), name) {
            return true;
        }
        i += 1;
    }
    false
}

fn first_name(list: &Vec<String>) -> (r: Option<String>)
    ensures
        text_view(r) == least(texts(list@)),
{
    let ghost all = texts(list@);
    let mut best: Option<usize> = None;
    let mut i: usize = 0;
    assert(all.take(0) =~= Seq::<Seq<char>>::empty());
    while i < list.len()
        invariant
            i <= list.len(),
            all == texts(list@),
            match best {
                Some(b) => b < i && least(all.take(i as int)) == Some(list@[b as int]@),
                None => least(all.take(i as int)) is None,
            },
        decreases list.len() - i,
    {
        proof {
            assert(all.take(i + 1).drop_last() =~= all.take(i as int));
            assert(all.take(i + 1).last() == list@[i as int]@);
        }
        match best {
            Some(b) => {
                let x = chars_of(list[i].as_str());
                let y = chars_of(list[b].as_str());
                if comes_before(x.as_slice(), y.as_slice()) {
                    best = Some(i);
                }
            },
            None => {
                best = Some(i);
            },
        }
        i += 1;
    }
    assert(all.take(i as int) =~= all);
    match best {
        Some(b) => Some(owned(list[b].as_str())),
        None => None,
    }
}

/// Those of `list` that are not among `out`, in alphabetical order.
fn sort_others(list: &Vec<String>, out: &Vec<String>) -> (r: Vec<String>)
    ensures
        texts(r@) == text_sorted(others(texts(list@), texts(out@))),
{
    let ghost all = texts(list@);
    let ghost not = texts(out@);
    let mut r: Vec<String> = Vec::new();
    let mut i: usize = 0;
    assert(all.take(0) =~= Seq::<Seq<char>>::empty());
    assert(texts(r@) =~= text_sorted(others(all.take(0), not)));
    while i < list.len()
        invariant
            i <= list.len(),
            all == texts(list@),
            not == texts(out@),
            texts(r@) == text_sorted(others(all.take(i as int), not)),
        decreases list.len() - i,
    {
        proof {
            assert(all.take(i + 1).drop_last() =~= all.take(i as int));
            assert(all.take(i + 1).last() == list@[i as int]@);
        }
        if !among(out, list[i].as_str()) {
            proof {
                let head = others(all.take(i as int), not);
                assert(head.push(all[i as int]).drop_last() =~= head);
            }
            insert_text(&mut r, owned(list[i].as_str()));
        }
        i += 1;
    }
    assert(all.take(i as int) =~= all);
    r
}

} // verus!
