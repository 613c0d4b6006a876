//! Finding font files and building the index out of their bytes.

use vstd::prelude::*;

use crate::arena::text_view;
use crate::chars::{chars_of, lower, lowered, same, slice_of, string_of, texts, trim, trimmed};
use crate::introspect::sockets::{join_path, path_join, str_view};
use crate::introspect::text::{chars_view, split, split_at};
use crate::text::db::{ingested, path_of_face, selected, FamilyView, FontDb, FontId};
use crate::text::index::{
    all_known, decoded, decoded_faces_have_files, dirs_view, encode_decode_round_trips, encoded,
    faces_view, files_view, load, sound, validates, DirRecord, DirView, FaceRecord, FaceView,
    FileRecord, FileView, Index, IndexView, MAX_BYTES,
};
use crate::text::paths::{first_spelling, ordered, parts_of, path_before, paths_are_ordered};
use crate::text::sfnt::{
    attributes_of_face, face_count, face_is_readable, face_offset, face_reads, faces_in,
    fixed_pitch_of_face, font_attributes, font_fixed_pitch, font_string, is_font, string_of_face,
    Asked, Slant,
};

verus! {

/// How many directories deep a scan goes, so that a loop of links cannot
/// hang it.
pub const MAX_DEPTH: u32 = 8;

/// Whether a directory that deep is still looked into.
pub fn descends(depth: u32) -> (r: bool)
    ensures
        r == (depth <= MAX_DEPTH),
{
    depth <= MAX_DEPTH
}

// ---------------------------------------------------------------------
// file names
// ---------------------------------------------------------------------

/// The last component of a path that names something.
pub open spec fn last_name(parts: Seq<Seq<char>>) -> Option<Seq<char>>
    decreases parts.len(),
{
    if parts.len() == 0 {
        None
    } else if parts.last().len() == 0 || parts.last() == "."@ {
        last_name(parts.drop_last())
    } else if parts.last() == ".."@ {
        None
    } else {
        Some(parts.last())
    }
}

/// Where the last dot of a name is.
pub open spec fn last_dot(s: Seq<char>) -> Option<int>
    decreases s.len(),
{
    if s.len() == 0 {
        None
    } else if s.last() == '.' {
        Some(s.len() - 1)
    } else {
        last_dot(s.drop_last())
    }
}

/// The extension of a path: what is behind the last dot of its last name,
/// unless that dot is in front of the whole name.
pub open spec fn extension(path: Seq<char>) -> Option<Seq<char>> {
    match last_name(split(path, '/')) {
        Some(name) => match last_dot(name) {
            Some(i) => if i > 0 {
                Some(name.skip(i + 1))
            } else {
                None
            },
            None => None,
        },
        None => None,
    }
}

/// Whether a path is that of a font file, by its extension in any case.
pub open spec fn font_path(path: Seq<char>) -> bool {
    match extension(path) {
        Some(e) => {
            let x = lower(e);
            x == "ttf"@ || x == "otf"@ || x == "ttc"@ || x == "otc"@
        },
        None => false,
    }
}

fn is_word(v: &[char], t: &str) -> (r: bool)
    ensures
        r == (v@ == t@),
{
    let w = chars_of(t);
    same(v, w.as_slice())
}

/// Whether a path is that of a font file, by its extension in any case.
pub fn is_font_path(path: &str) -> (r: bool)
    ensures
        r == font_path(path@),
{
    let v = chars_of(path);
    let parts = split_at(v.as_slice(), '/');
    let ghost all = chars_view(parts@);
    let mut k: usize = parts.len();
    assert(all.take(k as int) =~= all);
    while k > 0
        invariant
            k <= parts.len(),
            all == chars_view(parts@),
            all == split(path@, '/'),
            last_name(all) == last_name(all.take(k as int)),
        decreases k,
    {
        let part = parts[k - 1].as_slice();
        proof {
            assert(all.take(k as int).last() == part@);
            assert(all.take(k as int).drop_last() =~= all.take(k - 1));
        }
        if part.len() == 0 || is_word(part, ".") {
            k -= 1;
        } else if is_word(part, "..") {
            return false;
        } else {
            return ends_like_a_font(part);
        }
    }
    false
}

fn ends_like_a_font(name: &[char]) -> (r: bool)
    ensures
        r == (match last_dot(name@) {
            Some(i) => i > 0 && {
                let x = lower(name@.skip(i + 1));
                x == "ttf"@ || x == "otf"@ || x == "ttc"@ || x == "otc"@
            },
            None => false,
        }),
{
    let mut i: usize = name.len();
    assert(name@.take(i as int) =~= name@);
    while i > 0
        invariant
            i <= name.len(),
            last_dot(name@) == last_dot(name@.take(i as int)),
        decreases i,
    {
        proof {
            assert(name@.take(i as int).last() == name@[i - 1]);
            assert(name@.take(i as int).drop_last() =~= name@.take(i - 1));
        }
        if name[i - 1] == '.' {
            if i == 1 {
                return false;
            }
            let ext = slice_of(name, i, name.len());
            assert(ext@ =~= name@.skip(i as int));
            let low = lowered(ext.as_slice());
            let x = low.as_slice();
            return is_word(x, "ttf") || is_word(x, "otf") || is_word(x, "ttc") || is_word(x, "otc");
        }
        i -= 1;
    }
    false
}

/// The non-empty pieces of a run.
pub open spec fn filled(s: Seq<Seq<char>>) -> Seq<Seq<char>>
    decreases s.len(),
{
    if s.len() == 0 {
        Seq::empty()
    } else if s.last().len() == 0 {
        filled(s.drop_last())
    } else {
        filled(s.drop_last()).push(s.last())
    }
}

/// The directories to scan: those of the list, separated by colons, or the
/// usual ones.
pub open spec fn dirs_to_scan(chosen: Option<Seq<char>>, home: Option<Seq<char>>) -> Seq<Seq<char>> {
    match chosen {
        Some(v) => filled(split(v, ':')),
        None => {
            let usual = seq!["/usr/share/fonts"@, "/usr/local/share/fonts"@];
            match home {
                Some(h) => usual.push(path_join(h, ".local/share/fonts"@)),
                None => usual,
            }
        },
    }
}

/// The directories to scan, given `NITRO_FONT_DIRS` and `HOME`.
pub fn font_dirs(chosen: Option<&str>, home: Option<&str>) -> (out: Vec<String>)
    ensures
        texts(out@) == dirs_to_scan(str_view(chosen), str_view(home)),
{
    let mut out: Vec<String> = Vec::new();
    match chosen {
        Some(v) => {
            let chars = chars_of(v);
            let parts = split_at(chars.as_slice(), ':');
            let ghost all = chars_view(parts@);
            let mut i: usize = 0;
            assert(all.take(0) =~= Seq::<Seq<char>>::empty());
            assert(texts(out@) =~= filled(all.take(0)));
            while i < parts.len()
                invariant
                    i <= parts.len(),
                    all == chars_view(parts@),
                    texts(out@) == filled(all.take(i as int)),
                decreases parts.len() - i,
            {
                let ghost before = texts(out@);
                proof {
                    assert(all.take(i + 1).drop_last() =~= all.take(i as int));
                    assert(all.take(i + 1).last() == parts@[i as int]@);
                }
                if parts[i].len() > 0 {
                    out.push(string_of(parts[i].as_slice()));
                    assert(texts(out@) =~= before.push(parts@[i as int]@));
                }
                i += 1;
            }
            assert(all.take(i as int) =~= all);
        },
        None => {
            out.push("/usr/share/fonts".to_owned());
            out.push("/usr/local/share/fonts".to_owned());
            if let Some(h) = home {
                out.push(join_path(h, ".local/share/fonts"));
            }
            assert(texts(out@) =~= dirs_to_scan(str_view(chosen), str_view(home)));
        },
    }
    out
}

// ---------------------------------------------------------------------
// faces out of bytes
// ---------------------------------------------------------------------

/// The family of a face: its typographic family name, else the legacy one;
/// a name that is all white space is none.
pub open spec fn family_from(
    typographic: Option<Seq<char>>,
    legacy: Option<Seq<char>>,
) -> Option<Seq<char>> {
    if typographic is Some && trim(typographic->0).len() > 0 {
        Some(trim(typographic->0))
    } else if legacy is Some && trim(legacy->0).len() > 0 {
        Some(trim(legacy->0))
    } else {
        None
    }
}

fn trimmed_name(s: &Option<String>) -> (r: Option<String>)
    ensures
        text_view(r) == (if s is Some && trim(s->0@).len() > 0 {
            Some(trim(s->0@))
        } else {
            None
        }),
{
    match s {
        Some(t) => {
            let v = chars_of(t.as_str());
            let bare = trimmed(v.as_slice());
            if bare.len() > 0 {
                Some(string_of(bare.as_slice()))
            } else {
                None
            }
        },
        None => None,
    }
}

/// The family of a face, out of the two names that it may have.
pub fn choose_family(typographic: &Option<String>, legacy: &Option<String>) -> (r: Option<String>)
    ensures
        text_view(r) == family_from(text_view(*typographic), text_view(*legacy)),
{
    match trimmed_name(typographic) {
        Some(s) => Some(s),
        None => trimmed_name(legacy),
    }
}

/// The identifier of the typographic family name.
pub const TYPOGRAPHIC_FAMILY: u16 = 16;

/// The identifier of the legacy family name.
pub const LEGACY_FAMILY: u16 = 1;

/// The string of a face under an identifier; none where it cannot be read.
pub open spec fn name_found(data: Seq<u8>, index: nat, id: u16) -> Option<Seq<char>> {
    if face_reads(data, index, Asked::Name(id)) {
        font_string(data, index, id)
    } else {
        None
    }
}

/// The record of a face, or nothing for one that cannot be read or has no
/// name.
pub open spec fn face_found(file: u32, data: Seq<u8>, index: nat) -> Option<FaceView> {
    if face_reads(data, index, Asked::Attributes) {
        match family_from(
            name_found(data, index, TYPOGRAPHIC_FAMILY),
            name_found(data, index, LEGACY_FAMILY),
        ) {
            Some(family) => {
                let (stretch, weight, slant) = font_attributes(data, index);
                Some(
                    FaceView {
                        file,
                        index: index as u32,
                        family,
                        weight,
                        stretch,
                        italic: slant != Slant::Upright,
                        monospace: font_fixed_pitch(data, index),
                    },
                )
            },
            None => None,
        }
    } else {
        None
    }
}

/// The records of the first `n` faces of a file.
pub open spec fn faces_found(file: u32, data: Seq<u8>, n: nat) -> Seq<FaceView>
    decreases n,
{
    if n == 0 {
        Seq::empty()
    } else {
        let head = faces_found(file, data, (n - 1) as nat);
        match face_found(file, data, (n - 1) as nat) {
            Some(f) => head.push(f),
            None => head,
        }
    }
}

/// The records of all faces of a file; none of what is no font file.
pub open spec fn file_faces(file: u32, data: Seq<u8>) -> Seq<FaceView> {
    match faces_in(data) {
        Some(n) => faces_found(file, data, n),
        None => Seq::empty(),
    }
}

/// No face is found where the file ends before its offset.
proof fn lemma_no_more(file: u32, data: Seq<u8>, from: nat, n: nat)
    requires
        faces_in(data) == Some(n),
        1 <= from < n,
        16 + 4 * from > data.len(),
    ensures
        faces_found(file, data, n) == faces_found(file, data, from),
{
    lemma_upto(file, data, from, (n - 1) as nat, n);
}

proof fn lemma_upto(file: u32, data: Seq<u8>, from: nat, k: nat, n: nat)
    requires
        faces_in(data) == Some(n),
        1 <= from <= k < n,
        16 + 4 * from > data.len(),
    ensures
        faces_found(file, data, k + 1) == faces_found(file, data, from),
    decreases k,
{
    assert(!face_reads(data, k, Asked::Attributes)) by {
        if is_font(data, 0) {
            assert(n == 1);
        }
        assert(face_offset(data, k) is None);
    }
    if from < k {
        lemma_upto(file, data, from, (k - 1) as nat, n);
    }
}

fn read_name(data: &[u8], index: usize, id: u16) -> (r: Option<String>)
    requires
        index <= u32::MAX,
        12 + 4 * index <= usize::MAX,
    ensures
        text_view(r) == name_found(data@, index as nat, id),
{
    if face_is_readable(data, index, Asked::Name(id)) {
        string_of_face(data, index, id)
    } else {
        None
    }
}

fn read_face(file: u32, data: &[u8], index: usize) -> (r: Option<FaceRecord>)
    requires
        index <= u32::MAX,
        12 + 4 * index <= usize::MAX,
    ensures
        match r {
            Some(f) => face_found(file, data@, index as nat) == Some(f@),
            None => face_found(file, data@, index as nat) is None,
        },
{
    if !face_is_readable(data, index, Asked::Attributes) {
        return None;
    }
    let typographic = read_name(data, index, TYPOGRAPHIC_FAMILY);
    let legacy = read_name(data, index, LEGACY_FAMILY);
    let family = match choose_family(&typographic, &legacy) {
        Some(s) => s,
        None => {
            return None;
        },
    };
    match (attributes_of_face(data, index), fixed_pitch_of_face(data, index)) {
        (Some((stretch, weight, slant)), Some(monospace)) => Some(
            FaceRecord {
                file,
                index: index as u32,
                family,
                weight,
                stretch,
                italic: slant != Slant::Upright,
                monospace,
            },
        ),
        _ => None,
    }
}

/// A scan under way: what the walk found, and the faces read so far.
pub struct Scan {
    dirs: Vec<DirRecord>,
    files: Vec<FileRecord>,
    faces: Vec<FaceRecord>,
}

impl View for Scan {
    type V = IndexView;

    closed spec fn view(&self) -> IndexView {
        IndexView {
            dirs: dirs_view(self.dirs@),
            files: files_view(self.files@),
            faces: faces_view(self.faces@),
        }
    }
}

proof fn lemma_faces_of(file: u32, data: Seq<u8>, n: nat)
    requires
        n <= u32::MAX,
    ensures
        forall|i: int|
            0 <= i < faces_found(file, data, n).len() ==> (#[trigger] faces_found(
                file,
                data,
                n,
            )[i]).file == file && faces_found(file, data, n)[i].index < n,
        numbered(faces_found(file, data, n)),
    decreases n,
{
    if n > 0 {
        lemma_faces_of(file, data, (n - 1) as nat);
        let head = faces_found(file, data, (n - 1) as nat);
        let all = faces_found(file, data, n);
        assert forall|i: int| 0 <= i < all.len() implies (#[trigger] all[i]).file == file
            && all[i].index < n by {
            if i < head.len() {
                assert(all[i] == head[i]);
            }
        }
        assert forall|i: int, j: int| 0 <= i < j < all.len() implies face_before(
            #[trigger] all[i],
            #[trigger] all[j],
        ) by {
            assert(all[i] == head[i]);
            if j < head.len() {
                assert(all[j] == head[j]);
            }
        }
    }
}

/// The faces of a later file stand behind those that were found.
proof fn lemma_numbered(head: Seq<FaceView>, file: u32, data: Seq<u8>, n: nat)
    requires
        n <= u32::MAX,
        numbered(head),
        head.len() > 0 ==> head.last().file < file,
    ensures
        numbered(head + faces_found(file, data, n)),
{
    lemma_faces_of(file, data, n);
    let more = faces_found(file, data, n);
    let all = head + more;
    assert forall|i: int, j: int| 0 <= i < j < all.len() implies face_before(
        #[trigger] all[i],
        #[trigger] all[j],
    ) by {
        if j < head.len() {
            assert(all[i] == head[i] && all[j] == head[j]);
        } else {
            assert(all[j] == more[j - head.len()]);
            if i < head.len() {
                assert(all[i] == head[i]);
                if i < head.len() - 1 {
                    assert(face_before(head[i], head[head.len() - 1]));
                }
            } else {
                assert(all[i] == more[i - head.len()]);
            }
        }
    }
}

/// Whether one face is numbered before another: by its file, and by its index
/// among the faces of one file.
pub open spec fn face_before(a: FaceView, b: FaceView) -> bool {
    a.file < b.file || (a.file == b.file && a.index < b.index)
}

/// Whether faces stand in the order of their files, each of them once.
pub open spec fn numbered(faces: Seq<FaceView>) -> bool {
    forall|i: int, j: int|
        0 <= i < j < faces.len() ==> face_before(#[trigger] faces[i], #[trigger] faces[j])
}

impl Scan {
    /// The invariant: every face is of a file that the walk found, and they
    /// stand in the order of their files.
    pub open spec fn wf(&self) -> bool {
        sound(self@) && numbered(self@.faces)
    }

    /// Read the faces of one file's bytes: of files in the order of their
    /// numbers, each of them once. A face that cannot be read is skipped: a
    /// broken font must not stop the scan.
    pub fn add_file(&mut self, file: u32, data: &[u8])
        requires
            old(self).wf(),
            file < old(self)@.files.len(),
            old(self)@.faces.len() > 0 ==> old(self)@.faces.last().file < file,
        ensures
            final(self).wf(),
            final(self)@ == (IndexView {
                faces: old(self)@.faces + file_faces(file, data@),
                ..old(self)@
            }),
    {
        let ghost head = self@.faces;
        let n = match face_count(data) {
            Some(n) => n,
            None => {
                assert(head + Seq::<FaceView>::empty() =~= head);
                assert(self@ == old(self)@);
                return;
            },
        };
        let size: usize = data.len();
        let mut i: usize = 0;
        assert(faces_view(self.faces@) =~= head + faces_found(file, data@, 0));
        proof {
            assert(n <= u32::MAX);
        }
        while i < n && (i == 0 || (size >= 16 && i <= (size - 16) / 4))
            invariant
                i <= n,
                n <= u32::MAX,
                size == data@.len(),
                faces_in(data@) == Some(n as nat),
                self.dirs == old(self).dirs,
                self.files == old(self).files,
                faces_view(self.faces@) == head + faces_found(file, data@, i as nat),
            decreases n - i,
        {
            let ghost before = faces_view(self.faces@);
            if let Some(f) = read_face(file, data, i) {
                self.faces.push(f);
                assert(faces_view(self.faces@) =~= before.push(f@));
            }
            assert(faces_view(self.faces@) =~= head + faces_found(file, data@, (i + 1) as nat));
            i += 1;
        }
        proof {
            if i < n {
                lemma_no_more(file, data@, i as nat, n as nat);
            }
            lemma_faces_of(file, data@, n as nat);
            lemma_numbered(head, file, data@, n as nat);
            let ix = self@;
            assert forall|k: int| 0 <= k < ix.faces.len() implies (#[trigger] ix.faces[k]).file
                < ix.files.len() by {
                if k < head.len() {
                    assert(ix.faces[k] == old(self)@.faces[k]);
                } else {
                    assert(ix.faces[k] == faces_found(file, data@, n as nat)[k - head.len()]);
                }
            }
        }
    }

    /// The index that was read: every face is of one of its files, and they
    /// stand in the order of the files.
    pub fn finish(self) -> (ix: Index)
        requires
            self.wf(),
        ensures
            ix@ == self@,
            sound(ix@),
            numbered(ix@.faces),
    {
        Index { dirs: self.dirs, files: self.files, faces: self.faces }
    }
}

/// Where a scan starts: the index is known, or the files have to be read.
pub enum Started {
    /// The cache describes exactly what the walk found.
    Known(Index),
    /// The files have to be read.
    Unknown(Scan),
}

impl FontDb {
    /// Start a scan of what a walk found, without a cache.
    pub fn scan_dirs(dirs: Vec<DirRecord>, files: Vec<FileRecord>) -> (s: Scan)
        ensures
            s.wf(),
            s@ == (IndexView {
                dirs: dirs_view(dirs@),
                files: files_view(files@),
                faces: Seq::empty(),
            }),
    {
        let s = Scan { dirs, files, faces: Vec::new() };
        assert(s@.faces =~= Seq::<FaceView>::empty());
        s
    }

    /// Start a scan of what a walk found. A cache that describes exactly
    /// the same directories and files spares the reading; any other is
    /// discarded.
    pub fn scan_dirs_with_cache(
        dirs: Vec<DirRecord>,
        files: Vec<FileRecord>,
        cache: Option<&[u8]>,
    ) -> (r: Started)
        ensures
            ({
                let d = dirs_view(dirs@);
                let f = files_view(files@);
                let hit = cache is Some && validates(cache->0@, d, f);
                match r {
                    Started::Known(ix) => hit && decoded(cache->0@) == Some(ix@) && sound(ix@),
                    Started::Unknown(s) => !hit && s.wf() && s@ == (IndexView {
                        dirs: d,
                        files: f,
                        faces: Seq::empty(),
                    }),
                }
            }),
    {
        if let Some(bytes) = cache {
            if let Some(ix) = load(bytes, &dirs, &files) {
                proof {
                    decoded_faces_have_files(bytes@);
                }
                return Started::Known(ix);
            }
        }
        Started::Unknown(FontDb::scan_dirs(dirs, files))
    }
}

/// A start from the cache that a scan left is like the start that scanned:
/// the same faces of the same files, and so the same face for every request.
/// The cache is used exactly where the walk finds the same directories and
/// files, and could look at all of them.
pub proof fn a_warm_start_equals_the_cold_one(
    ix: IndexView,
    cold_nanos: u64,
    warm_nanos: u64,
    limit: usize,
    dirs: Seq<DirView>,
    files: Seq<FileView>,
)
    requires
        sound(ix),
        encoded(ix).len() <= MAX_BYTES,
    ensures
        validates(encoded(ix), dirs, files) <==> dirs == ix.dirs && files == ix.files && all_known(
            dirs,
            files,
        ),
        decoded(encoded(ix)) == Some(ix),
        ({
            let cold = ingested(ix, false, cold_nanos, limit);
            let warm = ingested(decoded(encoded(ix))->0, true, warm_nanos, limit);
            &&& warm.from_cache
            &&& warm.faces == cold.faces
            &&& warm.files == cold.files
            &&& warm.cache == cold.cache
            &&& forall|family: FamilyView, weight: u16, italic: bool| #[trigger]
                selected(warm.faces, family, weight, italic) == selected(
                    cold.faces,
                    family,
                    weight,
                    italic,
                )
        }),
{
    encode_decode_round_trips(ix);
}

/// The faces that a scan found are numbered in the order of their paths: the
/// path of one never comes before that of an earlier one. Where the files are
/// those that a walk found, in order, every face is of one of them; and no
/// two faces are the same face of the same file, even if the walk came upon
/// a file twice.
pub proof fn faces_are_numbered_in_path_order(
    found: Seq<Seq<char>>,
    ix: IndexView,
    from_cache: bool,
    scan_nanos: u64,
    limit: usize,
    i: FontId,
    j: FontId,
)
    requires
        sound(ix),
        numbered(ix.faces),
        ordered(found, ix.files.map_values(|f: FileView| f.path)),
        i.0 < j.0 < ix.faces.len(),
    ensures
        ({
            let v = ingested(ix, from_cache, scan_nanos, limit);
            let a = path_of_face(v, i);
            let b = path_of_face(v, j);
            &&& a is Some && b is Some
            &&& found.contains(a->0) && found.contains(b->0)
            &&& path_before(a->0, b->0) || a == b
            &&& !path_before(b->0, a->0)
            &&& parts_of(a->0) == parts_of(b->0) ==> v.faces[i.0 as int].index
                < v.faces[j.0 as int].index
        }),
{
    let v = ingested(ix, from_cache, scan_nanos, limit);
    let paths = ix.files.map_values(|f: FileView| f.path);
    let p = ix.faces[i.0 as int].file as int;
    let q = ix.faces[j.0 as int].file as int;
    assert(face_before(ix.faces[i.0 as int], ix.faces[j.0 as int]));
    assert(v.files == paths);
    assert(first_spelling(found, paths[p]) && first_spelling(found, paths[q]));
    paths_are_ordered(paths[p], paths[q]);
    if p < q {
        assert(path_before(paths[p], paths[q]));
    }
}

} // verus!
