//! The on-disk font index cache.
//!
//! Scanning means opening every font file on the box and parsing its tables
//! for an index that fits in a few kilobytes. The index is written out, so
//! that the next start only has to walk the directories.
//!
//! The format is a length-prefixed run of bytes with a magic and a version
//! in front. Anything that does not parse, or that describes another set of
//! files than the walk just found, is discarded.

use vstd::prelude::*;
use vstd::utf8::*;

use crate::chars::{owned, text_eq};
use crate::arena::text_view;
use crate::introspect::sockets::{join_path, path_join, str_view};

verus! {

/// Bumped whenever the layout changes; an older file is discarded.
pub const VERSION: u32 = 1;

/// Refuse to parse anything larger; a cache file this big is corruption.
pub const MAX_BYTES: usize = 8388608;

/// One face as the cache stores it: everything the index needs and no bytes.
#[derive(Debug, Clone, PartialEq, Eq)]
pub struct FaceRecord {
    /// Index into the file list.
    pub file: u32,
    /// Face index within that file.
    pub index: u32,
    /// Family name, original case.
    pub family: String,
    /// CSS weight.
    pub weight: u16,
    /// Stretch, as the raw percentage-like value.
    pub stretch: u16,
    /// Italic or oblique.
    pub italic: bool,
    /// Whether every glyph is equally wide.
    pub monospace: bool,
}

/// One font file as the walk found it: path, size and time of change. All
/// of them are compared, so that a replacement in place invalidates.
#[derive(Debug, Clone, PartialEq, Eq)]
pub struct FileRecord {
    /// Where the file is.
    pub path: String,
    /// Its size in bytes.
    pub len: u64,
    /// When it was changed: whole seconds.
    pub mtime_secs: u64,
    /// When it was changed: the rest.
    pub mtime_nanos: u32,
}

/// One directory as the walk found it.
#[derive(Debug, Clone, PartialEq, Eq)]
pub struct DirRecord {
    /// Where the directory is.
    pub path: String,
    /// When it was changed: whole seconds.
    pub mtime_secs: u64,
    /// When it was changed: the rest.
    pub mtime_nanos: u32,
    /// How many font files were found under it.
    pub files: u32,
}

/// A whole cache: the directories it was built from, and the index.
#[derive(Debug, Clone, PartialEq, Eq)]
pub struct Index {
    /// Every directory that was walked.
    pub dirs: Vec<DirRecord>,
    /// Every font file, in the order the scan uses.
    pub files: Vec<FileRecord>,
    /// Every face, in the order of discovery.
    pub faces: Vec<FaceRecord>,
}

/// What a [`FaceRecord`] holds, as mathematical values.
pub struct FaceView {
    /// Index into the file list.
    pub file: u32,
    /// Face index within that file.
    pub index: u32,
    /// Family name.
    pub family: Seq<char>,
    /// CSS weight.
    pub weight: u16,
    /// Stretch.
    pub stretch: u16,
    /// Italic or oblique.
    pub italic: bool,
    /// Whether every glyph is equally wide.
    pub monospace: bool,
}

/// What a [`FileRecord`] holds, as mathematical values.
pub struct FileView {
    /// Where the file is.
    pub path: Seq<char>,
    /// Its size in bytes.
    pub len: u64,
    /// When it was changed: whole seconds.
    pub mtime_secs: u64,
    /// When it was changed: the rest.
    pub mtime_nanos: u32,
}

/// What a [`DirRecord`] holds, as mathematical values.
pub struct DirView {
    /// Where the directory is.
    pub path: Seq<char>,
    /// When it was changed: whole seconds.
    pub mtime_secs: u64,
    /// When it was changed: the rest.
    pub mtime_nanos: u32,
    /// How many font files were found under it.
    pub files: u32,
}

/// What an [`Index`] holds, as mathematical values.
pub struct IndexView {
    /// Every directory that was walked.
    pub dirs: Seq<DirView>,
    /// Every font file.
    pub files: Seq<FileView>,
    /// Every face.
    pub faces: Seq<FaceView>,
}

impl View for FaceRecord {
    type V = FaceView;

    open spec fn view(&self) -> FaceView {
        FaceView {
            file: self.file,
            index: self.index,
            family: self.family@,
            weight: self.weight,
            stretch: self.stretch,
            italic: self.italic,
            monospace: self.monospace,
        }
    }
}

impl View for FileRecord {
    type V = FileView;

    open spec fn view(&self) -> FileView {
        FileView {
            path: self.path@,
            len: self.len,
            mtime_secs: self.mtime_secs,
            mtime_nanos: self.mtime_nanos,
        }
    }
}

impl View for DirRecord {
    type V = DirView;

    open spec fn view(&self) -> DirView {
        DirView {
            path: self.path@,
            mtime_secs: self.mtime_secs,
            mtime_nanos: self.mtime_nanos,
            files: self.files,
        }
    }
}

/// What a run of directories holds.
pub open spec fn dirs_view(s: Seq<DirRecord>) -> Seq<DirView> {
    s.map_values(|x: DirRecord| x@)
}

/// What a run of files holds.
pub open spec fn files_view(s: Seq<FileRecord>) -> Seq<FileView> {
    s.map_values(|x: FileRecord| x@)
}

/// What a run of faces holds.
pub open spec fn faces_view(s: Seq<FaceRecord>) -> Seq<FaceView> {
    s.map_values(|x: FaceRecord| x@)
}

impl View for Index {
    type V = IndexView;

    open spec fn view(&self) -> IndexView {
        IndexView {
            dirs: dirs_view(self.dirs@),
            files: files_view(self.files@),
            faces: faces_view(self.faces@),
        }
    }
}

// ---------------------------------------------------------------------
// numbers and strings as bytes
// ---------------------------------------------------------------------

/// The lowest `k` bytes of `n`, lowest first.
pub open spec fn le(n: nat, k: nat) -> Seq<u8>
    decreases k,
{
    if k == 0 {
        Seq::empty()
    } else {
        seq![(n % 256) as u8] + le(n / 256, (k - 1) as nat)
    }
}

/// The number that bytes stand for, lowest first.
pub open spec fn number(s: Seq<u8>) -> nat
    decreases s.len(),
{
    if s.len() == 0 {
        0
    } else {
        s[0] as nat + 256 * number(s.drop_first())
    }
}

/// 256 to the power of `k`.
pub open spec fn bytes_hold(k: nat) -> nat
    decreases k,
{
    if k == 0 {
        1
    } else {
        256 * bytes_hold((k - 1) as nat)
    }
}

proof fn lemma_le(n: nat, k: nat)
    ensures
        le(n, k).len() == k,
        n < bytes_hold(k) ==> number(le(n, k)) == n,
    decreases k,
{
    if k > 0 {
        lemma_le(n / 256, (k - 1) as nat);
        assert(le(n, k).drop_first() =~= le(n / 256, (k - 1) as nat));
    }
}

proof fn lemma_powers()
    ensures
        bytes_hold(4) == 0x1_0000_0000,
        bytes_hold(8) == 0x1_0000_0000_0000_0000,
{
    reveal_with_fuel(bytes_hold, 9);
}

fn put_number(out: &mut Vec<u8>, v: u64, k: usize)
    ensures
        final(out)@ == old(out)@ + le(v as nat, k as nat),
{
    let ghost head = out@;
    let mut cur: u64 = v;
    let mut left: usize = k;
    while left > 0
        invariant
            left <= k,
            out@ + le(cur as nat, left as nat) == head + le(v as nat, k as nat),
        decreases left,
    {
        let ghost before = out@;
        out.push((cur % 256) as u8);
        assert(out@ + le((cur / 256) as nat, (left - 1) as nat) =~= before + le(
            cur as nat,
            left as nat,
        ));
        cur = cur / 256;
        left -= 1;
    }
    assert(out@ =~= head + le(v as nat, k as nat));
}

fn put_u32(out: &mut Vec<u8>, v: u32)
    ensures
        final(out)@ == old(out)@ + le(v as nat, 4),
{
    put_number(out, v as u64, 4);
}

fn put_u64(out: &mut Vec<u8>, v: u64)
    ensures
        final(out)@ == old(out)@ + le(v as nat, 8),
{
    put_number(out, v, 8);
}

/// A string with its length in bytes in front.
pub open spec fn put_text(s: Seq<char>) -> Seq<u8> {
    le(encode_utf8(s).len(), 4) + encode_utf8(s)
}

fn put_str(out: &mut Vec<u8>, s: &str)
    ensures
        final(out)@ == old(out)@ + put_text(s@),
{
    let bytes = s.as_bytes();
    put_number(out, bytes.len() as u64, 4);
    let ghost head = out@;
    let mut i: usize = 0;
    while i < bytes.len()
        invariant
            i <= bytes.len(),
            out@ == head + bytes@.take(i as int),
        decreases bytes.len() - i,
    {
        out.push(bytes[i]);
        assert(bytes@.take(i + 1) =~= bytes@.take(i as int).push(bytes@[i as int]));
        assert(out@ =~= head + bytes@.take(i + 1));
        i += 1;
    }
    assert(bytes@.take(i as int) =~= bytes@);
    assert(out@ =~= old(out)@ + put_text(s@));
}

// ---------------------------------------------------------------------
// writing
// ---------------------------------------------------------------------

/// One byte that says yes or no.
pub open spec fn put_bool(b: bool) -> Seq<u8> {
    seq![
        if b {
            1u8
        } else {
            0u8
        },
    ]
}

/// A directory as bytes.
pub open spec fn put_dir(d: DirView) -> Seq<u8> {
    put_text(d.path) + le(d.mtime_secs as nat, 8) + le(d.mtime_nanos as nat, 4) + le(
        d.files as nat,
        4,
    )
}

/// A file as bytes.
pub open spec fn put_file(f: FileView) -> Seq<u8> {
    put_text(f.path) + le(f.len as nat, 8) + le(f.mtime_secs as nat, 8) + le(
        f.mtime_nanos as nat,
        4,
    )
}

/// A face as bytes.
pub open spec fn put_face(f: FaceView) -> Seq<u8> {
    le(f.file as nat, 4) + le(f.index as nat, 4) + le(f.weight as nat, 4) + le(f.stretch as nat, 4)
        + put_bool(f.italic) + put_bool(f.monospace) + put_text(f.family)
}

/// The bytes of a run of things, one after the other.
pub open spec fn put_all<T>(s: Seq<T>, one: spec_fn(T) -> Seq<u8>) -> Seq<u8>
    decreases s.len(),
{
    if s.len() == 0 {
        Seq::empty()
    } else {
        one(s[0]) + put_all(s.drop_first(), one)
    }
}

/// The magic at the start of a cache: `NITROFNT`.
pub open spec fn magic() -> Seq<u8> {
    seq![78u8, 73u8, 84u8, 82u8, 79u8, 70u8, 78u8, 84u8]
}

/// An index as bytes.
pub open spec fn encoded(ix: IndexView) -> Seq<u8> {
    magic() + le(VERSION as nat, 4) + le(ix.dirs.len(), 4) + put_all(
        ix.dirs,
        |d: DirView| put_dir(d),
    ) + le(ix.files.len(), 4) + put_all(ix.files, |f: FileView| put_file(f)) + le(
        ix.faces.len(),
        4,
    ) + put_all(ix.faces, |f: FaceView| put_face(f))
}

proof fn lemma_put_push<T>(s: Seq<T>, x: T, one: spec_fn(T) -> Seq<u8>)
    ensures
        put_all(s.push(x), one) == put_all(s, one) + one(x),
    decreases s.len(),
{
    let all = s.push(x);
    if s.len() == 0 {
        assert(all.drop_first() =~= Seq::<T>::empty());
        assert(put_all(all.drop_first(), one) =~= Seq::<u8>::empty());
        assert(put_all(all, one) =~= put_all(s, one) + one(x));
    } else {
        lemma_put_push(s.drop_first(), x, one);
        assert(all.drop_first() =~= s.drop_first().push(x));
        assert(put_all(all, one) =~= put_all(s, one) + one(x));
    }
}

fn put_magic(out: &mut Vec<u8>)
    ensures
        final(out)@ == old(out)@ + magic(),
{
    out.push(78);
    out.push(73);
    out.push(84);
    out.push(82);
    out.push(79);
    out.push(70);
    out.push(78);
    out.push(84);
    assert(out@ =~= old(out)@ + magic());
}

fn put_flag(out: &mut Vec<u8>, b: bool)
    ensures
        final(out)@ == old(out)@ + put_bool(b),
{
    let v: u8 = if b {
        1
    } else {
        0
    };
    out.push(v);
    assert(out@ =~= old(out)@ + put_bool(b));
}

fn put_dirs(out: &mut Vec<u8>, dirs: &Vec<DirRecord>)
    ensures
        final(out)@ == old(out)@ + put_all(dirs_view(dirs@), |d: DirView| put_dir(d)),
{
    let ghost head = out@;
    let ghost one = |d: DirView| put_dir(d);
    let ghost all = dirs_view(dirs@);
    let mut i: usize = 0;
    assert(all.take(0) =~= Seq::<DirView>::empty());
    assert(out@ =~= head + put_all(all.take(0), one));
    while i < dirs.len()
        invariant
            i <= dirs.len(),
            all == dirs_view(dirs@),
            one == (|d: DirView| put_dir(d)),
            out@ == head + put_all(all.take(i as int), one),
        decreases dirs.len() - i,
    {
        let d = &dirs[i];
        let ghost before = out@;
        put_str(out, d.path.as_str());
        put_u64(out, d.mtime_secs);
        put_u32(out, d.mtime_nanos);
        put_u32(out, d.files);
        proof {
            lemma_put_push(all.take(i as int), d@, one);
            assert(all.take(i + 1) =~= all.take(i as int).push(d@));
            assert(out@ =~= before + put_dir(d@));
            assert(out@ =~= head + put_all(all.take(i + 1), one));
        }
        i += 1;
    }
    assert(all.take(i as int) =~= all);
}

fn put_files(out: &mut Vec<u8>, files: &Vec<FileRecord>)
    ensures
        final(out)@ == old(out)@ + put_all(files_view(files@), |f: FileView| put_file(f)),
{
    let ghost head = out@;
    let ghost one = |f: FileView| put_file(f);
    let ghost all = files_view(files@);
    let mut i: usize = 0;
    assert(all.take(0) =~= Seq::<FileView>::empty());
    assert(out@ =~= head + put_all(all.take(0), one));
    while i < files.len()
        invariant
            i <= files.len(),
            all == files_view(files@),
            one == (|f: FileView| put_file(f)),
            out@ == head + put_all(all.take(i as int), one),
        decreases files.len() - i,
    {
        let f = &files[i];
        let ghost before = out@;
        put_str(out, f.path.as_str());
        put_u64(out, f.len);
        put_u64(out, f.mtime_secs);
        put_u32(out, f.mtime_nanos);
        proof {
            lemma_put_push(all.take(i as int), f@, one);
            assert(all.take(i + 1) =~= all.take(i as int).push(f@));
            assert(out@ =~= before + put_file(f@));
            assert(out@ =~= head + put_all(all.take(i + 1), one));
        }
        i += 1;
    }
    assert(all.take(i as int) =~= all);
}

fn put_faces(out: &mut Vec<u8>, faces: &Vec<FaceRecord>)
    ensures
        final(out)@ == old(out)@ + put_all(faces_view(faces@), |f: FaceView| put_face(f)),
{
    let ghost head = out@;
    let ghost one = |f: FaceView| put_face(f);
    let ghost all = faces_view(faces@);
    let mut i: usize = 0;
    assert(all.take(0) =~= Seq::<FaceView>::empty());
    assert(out@ =~= head + put_all(all.take(0), one));
    while i < faces.len()
        invariant
            i <= faces.len(),
            all == faces_view(faces@),
            one == (|f: FaceView| put_face(f)),
            out@ == head + put_all(all.take(i as int), one),
        decreases faces.len() - i,
    {
        let f = &faces[i];
        let ghost before = out@;
        put_u32(out, f.file);
        put_u32(out, f.index);
        put_u32(out, f.weight as u32);
        put_u32(out, f.stretch as u32);
        put_flag(out, f.italic);
        put_flag(out, f.monospace);
        put_str(out, f.family.as_str());
        proof {
            lemma_put_push(all.take(i as int), f@, one);
            assert(all.take(i + 1) =~= all.take(i as int).push(f@));
            assert(out@ =~= before + put_face(f@));
            assert(out@ =~= head + put_all(all.take(i + 1), one));
        }
        i += 1;
    }
    assert(all.take(i as int) =~= all);
}

/// Serialize an index.
pub fn encode(index: &Index) -> (out: Vec<u8>)
    ensures
        out@ == encoded(index@),
{
    let mut out: Vec<u8> = Vec::new();
    put_magic(&mut out);
    put_u32(&mut out, VERSION);
    put_number(&mut out, index.dirs.len() as u64, 4);
    put_dirs(&mut out, &index.dirs);
    put_number(&mut out, index.files.len() as u64, 4);
    put_files(&mut out, &index.files);
    put_number(&mut out, index.faces.len() as u64, 4);
    put_faces(&mut out, &index.faces);
    assert(out@ =~= encoded(index@));
    out
}

// ---------------------------------------------------------------------
// reading
// ---------------------------------------------------------------------

/// What was read off the front of some bytes, and what is left of them.
pub type Taken<T> = Option<(T, Seq<u8>)>;

/// The first `n` bytes.
pub open spec fn take_bytes(s: Seq<u8>, n: nat) -> Taken<Seq<u8>> {
    if n <= s.len() {
        Some((s.take(n as int), s.skip(n as int)))
    } else {
        None
    }
}

/// A number of `k` bytes.
pub open spec fn take_number(s: Seq<u8>, k: nat) -> Taken<nat> {
    match take_bytes(s, k) {
        Some((b, rest)) => Some((number(b), rest)),
        None => None,
    }
}

/// A byte that says yes or no: anything but zero is yes.
pub open spec fn take_bool(s: Seq<u8>) -> Taken<bool> {
    match take_number(s, 1) {
        Some((n, rest)) => Some((n != 0, rest)),
        None => None,
    }
}

/// A string with its length in front.
pub open spec fn take_text(s: Seq<u8>) -> Taken<Seq<char>> {
    match take_number(s, 4) {
        Some((n, rest)) => match take_bytes(rest, n) {
            Some((b, rest)) => if valid_utf8(b) {
                Some((decode_utf8(b), rest))
            } else {
                None
            },
            None => None,
        },
        None => None,
    }
}

/// A directory.
pub open spec fn take_dir(s: Seq<u8>) -> Taken<DirView> {
    match take_text(s) {
        Some((path, s)) => match take_number(s, 8) {
            Some((secs, s)) => match take_number(s, 4) {
                Some((nanos, s)) => match take_number(s, 4) {
                    Some((files, s)) => Some(
                        (
                            DirView {
                                path,
                                mtime_secs: secs as u64,
                                mtime_nanos: nanos as u32,
                                files: files as u32,
                            },
                            s,
                        ),
                    ),
                    None => None,
                },
                None => None,
            },
            None => None,
        },
        None => None,
    }
}

/// A file.
pub open spec fn take_file(s: Seq<u8>) -> Taken<FileView> {
    match take_text(s) {
        Some((path, s)) => match take_number(s, 8) {
            Some((len, s)) => match take_number(s, 8) {
                Some((secs, s)) => match take_number(s, 4) {
                    Some((nanos, s)) => Some(
                        (
                            FileView {
                                path,
                                len: len as u64,
                                mtime_secs: secs as u64,
                                mtime_nanos: nanos as u32,
                            },
                            s,
                        ),
                    ),
                    None => None,
                },
                None => None,
            },
            None => None,
        },
        None => None,
    }
}

/// The four numbers a face starts with: file, index, weight and stretch.
/// Weight and stretch have to fit in two bytes.
pub open spec fn take_face_head(s: Seq<u8>) -> Taken<(nat, nat, nat, nat)> {
    match take_number(s, 4) {
        Some((file, s)) => match take_number(s, 4) {
            Some((index, s)) => match take_number(s, 4) {
                Some((weight, s)) => match take_number(s, 4) {
                    Some((stretch, s)) => if weight <= u16::MAX && stretch <= u16::MAX {
                        Some(((file, index, weight, stretch), s))
                    } else {
                        None
                    },
                    None => None,
                },
                None => None,
            },
            None => None,
        },
        None => None,
    }
}

/// A face of one of `files` files; a face of any other is no face.
pub open spec fn take_face(s: Seq<u8>, files: nat) -> Taken<FaceView> {
    match take_face_head(s) {
        Some((head, s)) => match take_bool(s) {
            Some((italic, s)) => match take_bool(s) {
                Some((monospace, s)) => match take_text(s) {
                    Some((family, s)) => if head.0 < files {
                        Some(
                            (
                                FaceView {
                                    file: head.0 as u32,
                                    index: head.1 as u32,
                                    family,
                                    weight: head.2 as u16,
                                    stretch: head.3 as u16,
                                    italic,
                                    monospace,
                                },
                                s,
                            ),
                        )
                    } else {
                        None
                    },
                    None => None,
                },
                None => None,
            },
            None => None,
        },
        None => None,
    }
}

/// `n` things, one after the other.
pub open spec fn take_all<T>(s: Seq<u8>, n: nat, one: spec_fn(Seq<u8>) -> Taken<T>) -> Taken<Seq<T>>
    decreases n,
{
    if n == 0 {
        Some((Seq::empty(), s))
    } else {
        match one(s) {
            Some((x, rest)) => match take_all(rest, (n - 1) as nat, one) {
                Some((xs, rest)) => Some((seq![x] + xs, rest)),
                None => None,
            },
            None => None,
        }
    }
}

/// A run of things with their count in front.
pub open spec fn take_run<T>(s: Seq<u8>, one: spec_fn(Seq<u8>) -> Taken<T>) -> Taken<Seq<T>> {
    match take_number(s, 4) {
        Some((n, rest)) => take_all(rest, n, one),
        None => None,
    }
}

/// The magic and the version.
pub open spec fn take_head(s: Seq<u8>) -> Taken<()> {
    match take_bytes(s, 8) {
        Some((m, rest)) => match take_number(rest, 4) {
            Some((v, rest)) => if m == magic() && v == VERSION {
                Some(((), rest))
            } else {
                None
            },
            None => None,
        },
        None => None,
    }
}

/// An index, and what follows it.
#[verifier::opaque]
pub open spec fn take_index(s: Seq<u8>) -> Taken<IndexView> {
    match take_head(s) {
        Some((_, s)) => match take_run(s, |b: Seq<u8>| take_dir(b)) {
            Some((dirs, s)) => match take_run(s, |b: Seq<u8>| take_file(b)) {
                Some((files, s)) => match take_run(s, |b: Seq<u8>| take_face(b, files.len())) {
                    Some((faces, s)) => Some((IndexView { dirs, files, faces }, s)),
                    None => None,
                },
                None => None,
            },
            None => None,
        },
        None => None,
    }
}

/// The index that bytes hold: nothing may follow it, and a file that is too
/// large holds none.
pub open spec fn decoded(bytes: Seq<u8>) -> Option<IndexView> {
    if bytes.len() > MAX_BYTES {
        None
    } else {
        match take_index(bytes) {
            Some((ix, rest)) => if rest.len() == 0 {
                Some(ix)
            } else {
                None
            },
            None => None,
        }
    }
}

proof fn lemma_number_bound(s: Seq<u8>)
    ensures
        number(s) < bytes_hold(s.len()),
    decreases s.len(),
{
    if s.len() > 0 {
        lemma_number_bound(s.drop_first());
    }
}

/// Calls `String::from_utf8`, which gives a string exactly for bytes that
/// are UTF-8, and then the one that they encode.
#[verifier::external_body]
fn utf8_string(bytes: Vec<u8>) -> (r: Option<String>)
    ensures
        match r {
            Some(s) => valid_utf8(bytes@) && s@ == decode_utf8(bytes@),
            None => !valid_utf8(bytes@),
        },
{
    String::from_utf8(bytes).ok()
}

/// Bounds-checked reader over the cache bytes.
struct Cursor<'a> {
    bytes: &'a [u8],
    at: usize,
}

impl<'a> Cursor<'a> {
    spec fn wf(&self) -> bool {
        self.at <= self.bytes@.len()
    }

    spec fn rest(&self) -> Seq<u8> {
        self.bytes@.skip(self.at as int)
    }

    fn take(&mut self, n: usize) -> (r: Option<Vec<u8>>)
        requires
            old(self).wf(),
        ensures
            final(self).wf(),
            final(self).bytes == old(self).bytes,
            match r {
                Some(b) => take_bytes(old(self).rest(), n as nat) == Some(
                    (b@, final(self).rest()),
                ),
                None => take_bytes(old(self).rest(), n as nat) is None,
            },
    {
        let end: usize = self.bytes.len();
        if n > end - self.at {
            return None;
        }
        let ghost rest = self.rest();
        let mut out: Vec<u8> = Vec::new();
        let mut i: usize = 0;
        while i < n
            invariant
                i <= n,
                end == self.bytes@.len(),
                self.at <= end,
                n <= end - self.at,
                rest == self.bytes@.skip(self.at as int),
                out@ == rest.take(i as int),
            decreases n - i,
        {
            out.push(self.bytes[self.at + i]);
            assert(rest[i as int] == self.bytes@[self.at + i]);
            assert(rest.take(i + 1) =~= rest.take(i as int).push(rest[i as int]));
            i += 1;
        }
        self.at = self.at + n;
        assert(self.rest() =~= rest.skip(n as int));
        Some(out)
    }

    fn number(&mut self, k: usize) -> (r: Option<u64>)
        requires
            old(self).wf(),
            k <= 8,
        ensures
            final(self).wf(),
            final(self).bytes == old(self).bytes,
            match r {
                Some(n) => take_number(old(self).rest(), k as nat) == Some(
                    (n as nat, final(self).rest()),
                ) && n < bytes_hold(k as nat),
                None => take_number(old(self).rest(), k as nat) is None,
            },
    {
        let b = match self.take(k) {
            Some(b) => b,
            None => {
                return None;
            },
        };
        let mut n: u64 = 0;
        let mut i: usize = k;
        assert(b@.skip(k as int) =~= Seq::<u8>::empty());
        while i > 0
            invariant
                i <= k,
                k <= 8,
                b@.len() == k,
                n == number(b@.skip(i as int)),
            decreases i,
        {
            proof {
                let tail = b@.skip(i - 1);
                assert(tail.drop_first() =~= b@.skip(i as int));
                assert(tail[0] == b@[i - 1]);
                lemma_number_bound(b@.skip(i as int));
                lemma_power_steps((k - i) as nat);
            }
            n = n * 256 + b[i - 1] as u64;
            i -= 1;
        }
        assert(b@.skip(0) =~= b@);
        proof {
            lemma_number_bound(b@);
        }
        Some(n)
    }

    fn u32(&mut self) -> (r: Option<u32>)
        requires
            old(self).wf(),
        ensures
            final(self).wf(),
            final(self).bytes == old(self).bytes,
            match r {
                Some(n) => take_number(old(self).rest(), 4) == Some(
                    (n as nat, final(self).rest()),
                ),
                None => take_number(old(self).rest(), 4) is None,
            },
    {
        proof {
            lemma_powers();
        }
        match self.number(4) {
            Some(n) => Some(n as u32),
            None => None,
        }
    }

    fn flag(&mut self) -> (r: Option<bool>)
        requires
            old(self).wf(),
        ensures
            final(self).wf(),
            final(self).bytes == old(self).bytes,
            match r {
                Some(b) => take_bool(old(self).rest()) == Some((b, final(self).rest())),
                None => take_bool(old(self).rest()) is None,
            },
    {
        match self.number(1) {
            Some(n) => Some(n != 0),
            None => None,
        }
    }

    fn string(&mut self) -> (r: Option<String>)
        requires
            old(self).wf(),
        ensures
            final(self).wf(),
            final(self).bytes == old(self).bytes,
            match r {
                Some(s) => take_text(old(self).rest()) == Some((s@, final(self).rest())),
                None => take_text(old(self).rest()) is None,
            },
    {
        let n = match self.u32() {
            Some(n) => n,
            None => {
                return None;
            },
        };
        let b = match self.take(n as usize) {
            Some(b) => b,
            None => {
                return None;
            },
        };
        utf8_string(b)
    }

    fn dir(&mut self) -> (r: Option<DirRecord>)
        requires
            old(self).wf(),
        ensures
            final(self).wf(),
            final(self).bytes == old(self).bytes,
            match r {
                Some(d) => take_dir(old(self).rest()) == Some((d@, final(self).rest())),
                None => take_dir(old(self).rest()) is None,
            },
    {
        proof {
            lemma_powers();
        }
        let path = match self.string() {
            Some(s) => s,
            None => {
                return None;
            },
        };
        let mtime_secs = match self.number(8) {
            Some(n) => n,
            None => {
                return None;
            },
        };
        let mtime_nanos = match self.u32() {
            Some(n) => n,
            None => {
                return None;
            },
        };
        match self.u32() {
            Some(files) => Some(DirRecord { path, mtime_secs, mtime_nanos, files }),
            None => None,
        }
    }

    fn file(&mut self) -> (r: Option<FileRecord>)
        requires
            old(self).wf(),
        ensures
            final(self).wf(),
            final(self).bytes == old(self).bytes,
            match r {
                Some(f) => take_file(old(self).rest()) == Some((f@, final(self).rest())),
                None => take_file(old(self).rest()) is None,
            },
    {
        let path = match self.string() {
            Some(s) => s,
            None => {
                return None;
            },
        };
        let len = match self.number(8) {
            Some(n) => n,
            None => {
                return None;
            },
        };
        let mtime_secs = match self.number(8) {
            Some(n) => n,
            None => {
                return None;
            },
        };
        match self.u32() {
            Some(mtime_nanos) => Some(FileRecord { path, len, mtime_secs, mtime_nanos }),
            None => None,
        }
    }

    fn face(&mut self, files: usize) -> (r: Option<FaceRecord>)
        requires
            old(self).wf(),
        ensures
            final(self).wf(),
            final(self).bytes == old(self).bytes,
            match r {
                Some(f) => take_face(old(self).rest(), files as nat) == Some(
                    (f@, final(self).rest()),
                ),
                None => take_face(old(self).rest(), files as nat) is None,
            },
    {
        let file = match self.u32() {
            Some(n) => n,
            None => {
                return None;
            },
        };
        let index = match self.u32() {
            Some(n) => n,
            None => {
                return None;
            },
        };
        let weight = match self.u32() {
            Some(n) => n,
            None => {
                return None;
            },
        };
        let stretch = match self.u32() {
            Some(n) => n,
            None => {
                return None;
            },
        };
        if weight > 65535 || stretch > 65535 {
            return None;
        }
        let italic = match self.flag() {
            Some(b) => b,
            None => {
                return None;
            },
        };
        let monospace = match self.flag() {
            Some(b) => b,
            None => {
                return None;
            },
        };
        let family = match self.string() {
            Some(s) => s,
            None => {
                return None;
            },
        };
        if file as usize >= files {
            return None;
        }
        Some(
            FaceRecord {
                file,
                index,
                family,
                weight: weight as u16,
                stretch: stretch as u16,
                italic,
                monospace,
            },
        )
    }

    fn dirs(&mut self) -> (r: Option<Vec<DirRecord>>)
        requires
            old(self).wf(),
        ensures
            final(self).wf(),
            final(self).bytes == old(self).bytes,
            match r {
                Some(v) => take_run(old(self).rest(), |b: Seq<u8>| take_dir(b)) == Some(
                    (dirs_view(v@), final(self).rest()),
                ),
                None => take_run(old(self).rest(), |b: Seq<u8>| take_dir(b)) is None,
            },
    {
        let n = match self.u32() {
            Some(n) => n,
            None => {
                return None;
            },
        };
        let ghost one = |b: Seq<u8>| take_dir(b);
        let ghost start = self.rest();
        let mut out: Vec<DirRecord> = Vec::new();
        let mut i: u32 = 0;
        assert(dirs_view(out@) =~= Seq::<DirView>::empty());
        proof {
            lemma_put_together(take_all(start, n as nat, one), dirs_view(out@));
        }
        while i < n
            invariant
                self.wf(),
                self.bytes == old(self).bytes,
                i <= n,
                one == (|b: Seq<u8>| take_dir(b)),
                take_all(start, n as nat, one) == after(
                    dirs_view(out@),
                    take_all(self.rest(), (n - i) as nat, one),
                ),
                take_run(old(self).rest(), one) == take_all(start, n as nat, one),
            decreases n - i,
        {
            let ghost here = self.rest();
            let ghost before = dirs_view(out@);
            match self.dir() {
                Some(d) => {
                    assert(one(here) == Some((d@, self.rest())));
                    out.push(d);
                    proof {
                        assert(dirs_view(out@) =~= before.push(d@));
                        lemma_step(before, d@, take_all(self.rest(), (n - i - 1) as nat, one));
                    }
                },
                None => {
                    assert(one(here) is None);
                    return None;
                },
            }
            i += 1;
        }
        assert(dirs_view(out@) + Seq::<DirView>::empty() =~= dirs_view(out@));
        Some(out)
    }

    fn files(&mut self) -> (r: Option<Vec<FileRecord>>)
        requires
            old(self).wf(),
        ensures
            final(self).wf(),
            final(self).bytes == old(self).bytes,
            match r {
                Some(v) => take_run(old(self).rest(), |b: Seq<u8>| take_file(b)) == Some(
                    (files_view(v@), final(self).rest()),
                ),
                None => take_run(old(self).rest(), |b: Seq<u8>| take_file(b)) is None,
            },
    {
        let n = match self.u32() {
            Some(n) => n,
            None => {
                return None;
            },
        };
        let ghost one = |b: Seq<u8>| take_file(b);
        let ghost start = self.rest();
        let mut out: Vec<FileRecord> = Vec::new();
        let mut i: u32 = 0;
        assert(files_view(out@) =~= Seq::<FileView>::empty());
        proof {
            lemma_put_together(take_all(start, n as nat, one), files_view(out@));
        }
        while i < n
            invariant
                self.wf(),
                self.bytes == old(self).bytes,
                i <= n,
                one == (|b: Seq<u8>| take_file(b)),
                take_all(start, n as nat, one) == after(
                    files_view(out@),
                    take_all(self.rest(), (n - i) as nat, one),
                ),
                take_run(old(self).rest(), one) == take_all(start, n as nat, one),
            decreases n - i,
        {
            let ghost here = self.rest();
            let ghost before = files_view(out@);
            match self.file() {
                Some(f) => {
                    assert(one(here) == Some((f@, self.rest())));
                    out.push(f);
                    proof {
                        assert(files_view(out@) =~= before.push(f@));
                        lemma_step(before, f@, take_all(self.rest(), (n - i - 1) as nat, one));
                    }
                },
                None => {
                    assert(one(here) is None);
                    return None;
                },
            }
            i += 1;
        }
        assert(files_view(out@) + Seq::<FileView>::empty() =~= files_view(out@));
        Some(out)
    }

    fn faces(&mut self, files: usize) -> (r: Option<Vec<FaceRecord>>)
        requires
            old(self).wf(),
        ensures
            final(self).wf(),
            final(self).bytes == old(self).bytes,
            match r {
                Some(v) => take_run(old(self).rest(), |b: Seq<u8>| take_face(b, files as nat))
                    == Some((faces_view(v@), final(self).rest())),
                None => take_run(
                    old(self).rest(),
                    |b: Seq<u8>| take_face(b, files as nat),
                ) is None,
            },
    {
        let n = match self.u32() {
            Some(n) => n,
            None => {
                return None;
            },
        };
        let ghost one = |b: Seq<u8>| take_face(b, files as nat);
        let ghost start = self.rest();
        let mut out: Vec<FaceRecord> = Vec::new();
        let mut i: u32 = 0;
        assert(faces_view(out@) =~= Seq::<FaceView>::empty());
        proof {
            lemma_put_together(take_all(start, n as nat, one), faces_view(out@));
        }
        while i < n
            invariant
                self.wf(),
                self.bytes == old(self).bytes,
                i <= n,
                one == (|b: Seq<u8>| take_face(b, files as nat)),
                take_all(start, n as nat, one) == after(
                    faces_view(out@),
                    take_all(self.rest(), (n - i) as nat, one),
                ),
                take_run(old(self).rest(), one) == take_all(start, n as nat, one),
            decreases n - i,
        {
            let ghost here = self.rest();
            let ghost before = faces_view(out@);
            match self.face(files) {
                Some(f) => {
                    assert(one(here) == Some((f@, self.rest())));
                    out.push(f);
                    proof {
                        assert(faces_view(out@) =~= before.push(f@));
                        lemma_step(before, f@, take_all(self.rest(), (n - i - 1) as nat, one));
                    }
                },
                None => {
                    assert(one(here) is None);
                    return None;
                },
            }
            i += 1;
        }
        assert(faces_view(out@) + Seq::<FaceView>::empty() =~= faces_view(out@));
        Some(out)
    }
}

/// What was read, with what came before it.
spec fn after<T>(head: Seq<T>, rest: Taken<Seq<T>>) -> Taken<Seq<T>> {
    match rest {
        Some((xs, left)) => Some((head + xs, left)),
        None => None,
    }
}

proof fn lemma_put_together<T>(rest: Taken<Seq<T>>, none: Seq<T>)
    requires
        none.len() == 0,
    ensures
        after(none, rest) == rest,
{
    if rest is Some {
        assert(none + (rest->0).0 =~= (rest->0).0);
    }
}

proof fn lemma_step<T>(head: Seq<T>, x: T, rest: Taken<Seq<T>>)
    ensures
        after(head.push(x), rest) == after(head, after(seq![x], rest)),
{
    if rest is Some {
        assert(head.push(x) + (rest->0).0 =~= head + (seq![x] + (rest->0).0));
    }
}

proof fn lemma_power_steps(k: nat)
    requires
        k < 8,
    ensures
        bytes_hold(k) <= 0x100_0000_0000_0000,
{
    reveal_with_fuel(bytes_hold, 9);
}

fn is_magic(b: &Vec<u8>) -> (r: bool)
    requires
        b@.len() == 8,
    ensures
        r == (b@ == magic()),
{
    let r = b[0] == 78 && b[1] == 73 && b[2] == 84 && b[3] == 82 && b[4] == 79 && b[5] == 70 && b[6]
        == 78 && b[7] == 84;
    proof {
        if r {
            assert(b@ =~= magic());
        }
    }
    r
}

/// Parse an index. `None` for anything that does not parse exactly.
pub fn decode(bytes: &[u8]) -> (r: Option<Index>)
    ensures
        match r {
            Some(ix) => decoded(bytes@) == Some(ix@),
            None => decoded(bytes@) is None,
        },
{
    if bytes.len() > MAX_BYTES {
        return None;
    }
    let mut cur = Cursor { bytes, at: 0 };
    proof {
        reveal(take_index);
    }
    assert(cur.rest() =~= bytes@);
    let head = match cur.take(8) {
        Some(b) => b,
        None => {
            return None;
        },
    };
    let version = match cur.u32() {
        Some(n) => n,
        None => {
            return None;
        },
    };
    if !is_magic(&head) || version != VERSION {
        return None;
    }
    let dirs = match cur.dirs() {
        Some(v) => v,
        None => {
            return None;
        },
    };
    let files = match cur.files() {
        Some(v) => v,
        None => {
            return None;
        },
    };
    let faces = match cur.faces(files.len()) {
        Some(v) => v,
        None => {
            return None;
        },
    };
    if cur.at != bytes.len() {
        return None;
    }
    Some(Index { dirs, files, faces })
}

/// Whether a directory is the same as another.
fn same_dir(a: &DirRecord, b: &DirRecord) -> (r: bool)
    ensures
        r == (a@ == b@),
{
    text_eq(a.path.as_str(), b.path.as_str()) && a.mtime_secs == b.mtime_secs && a.mtime_nanos
        == b.mtime_nanos && a.files == b.files
}

/// Whether a file is the same as another.
fn same_file(a: &FileRecord, b: &FileRecord) -> (r: bool)
    ensures
        r == (a@ == b@),
{
    text_eq(a.path.as_str(), b.path.as_str()) && a.len == b.len && a.mtime_secs == b.mtime_secs
        && a.mtime_nanos == b.mtime_nanos
}

/// Whether a directory could be looked at: one that could not has zeroes for
/// a stamp.
pub open spec fn dir_known(d: DirView) -> bool {
    d.mtime_secs != 0 || d.mtime_nanos != 0
}

/// Whether a file could be looked at: one that could not has zeroes for a
/// stamp.
pub open spec fn file_known(f: FileView) -> bool {
    f.len != 0 || f.mtime_secs != 0 || f.mtime_nanos != 0
}

/// Whether everything that a walk found could be looked at. What could not
/// may have changed unseen, and so never validates a cache.
pub open spec fn all_known(dirs: Seq<DirView>, files: Seq<FileView>) -> bool {
    &&& forall|i: int| 0 <= i < dirs.len() ==> dir_known(#[trigger] dirs[i])
    &&& forall|i: int| 0 <= i < files.len() ==> file_known(#[trigger] files[i])
}

/// Whether a cache is of exactly what a walk found.
pub open spec fn validates(bytes: Seq<u8>, dirs: Seq<DirView>, files: Seq<FileView>) -> bool {
    match decoded(bytes) {
        Some(ix) => ix.dirs == dirs && ix.files == files && all_known(dirs, files),
        None => false,
    }
}

/// Validate a cache against what the directory walk just found: the
/// directories and the files have to match exactly, and each of them has to
/// have been looked at.
pub fn load(bytes: &[u8], dirs: &Vec<DirRecord>, files: &Vec<FileRecord>) -> (r: Option<Index>)
    ensures
        match r {
            Some(ix) => decoded(bytes@) == Some(ix@) && validates(
                bytes@,
                dirs_view(dirs@),
                files_view(files@),
            ),
            None => !validates(bytes@, dirs_view(dirs@), files_view(files@)),
        },
{
    let index = match decode(bytes) {
        Some(ix) => ix,
        None => {
            return None;
        },
    };
    let ghost a = index@;
    if index.dirs.len() != dirs.len() || index.files.len() != files.len() {
        assert(a.dirs.len() == index.dirs@.len() && a.files.len() == index.files@.len());
        return None;
    }
    let mut i: usize = 0;
    while i < dirs.len()
        invariant
            i <= dirs.len(),
            dirs.len() == index.dirs.len(),
            a == index@,
            decoded(bytes@) == Some(a),
            forall|k: int| 0 <= k < i ==> (#[trigger] a.dirs[k]) == dirs@[k]@,
            forall|k: int| 0 <= k < i ==> dir_known(#[trigger] dirs_view(dirs@)[k]),
        decreases dirs.len() - i,
    {
        if dirs[i].mtime_secs == 0 && dirs[i].mtime_nanos == 0 {
            assert(!dir_known(dirs_view(dirs@)[i as int]));
            return None;
        }
        if !same_dir(&index.dirs[i], &dirs[i]) {
            assert(a.dirs[i as int] != dirs_view(dirs@)[i as int]);
            return None;
        }
        i += 1;
    }
    assert(a.dirs =~= dirs_view(dirs@));
    let mut k: usize = 0;
    while k < files.len()
        invariant
            k <= files.len(),
            files.len() == index.files.len(),
            a == index@,
            decoded(bytes@) == Some(a),
            forall|j: int| 0 <= j < k ==> (#[trigger] a.files[j]) == files@[j]@,
            forall|j: int| 0 <= j < k ==> file_known(#[trigger] files_view(files@)[j]),
        decreases files.len() - k,
    {
        if files[k].len == 0 && files[k].mtime_secs == 0 && files[k].mtime_nanos == 0 {
            assert(!file_known(files_view(files@)[k as int]));
            return None;
        }
        if !same_file(&index.files[k], &files[k]) {
            assert(a.files[k as int] != files_view(files@)[k as int]);
            return None;
        }
        k += 1;
    }
    assert(a.files =~= files_view(files@));
    Some(index)
}

/// Where the cache lives, given the environment: the override, unless that
/// is empty or says that there is to be no cache; else under the cache
/// directory, else under the home directory.
pub open spec fn cache_file(
    chosen: Option<Seq<char>>,
    cache_home: Option<Seq<char>>,
    home: Option<Seq<char>>,
) -> Option<Seq<char>> {
    match chosen {
        Some(v) => if v == "0"@ || v == "off"@ || v == "none"@ || v == ""@ {
            None
        } else {
            Some(v)
        },
        None => match cache_home {
            Some(base) => Some(path_join(path_join(base, "nitro"@), "fonts.idx"@)),
            None => match home {
                Some(h) => Some(
                    path_join(path_join(path_join(h, ".cache"@), "nitro"@), "fonts.idx"@),
                ),
                None => None,
            },
        },
    }
}

/// Where the cache lives, given `NITRO_FONT_INDEX_CACHE`, `XDG_CACHE_HOME`
/// and `HOME`.
pub fn cache_path(chosen: Option<&str>, cache_home: Option<&str>, home: Option<&str>) -> (r: Option<
    String,
>)
    ensures
        text_view(r) == cache_file(str_view(chosen), str_view(cache_home), str_view(home)),
{
    if let Some(v) = chosen {
        if text_eq(v, "0") || text_eq(v, "off") || text_eq(v, "none") || text_eq(v, "") {
            return None;
        }
        return Some(owned(v));
    }
    let base = match cache_home {
        Some(x) => owned(x),
        None => match home {
            Some(h) => join_path(h, ".cache"),
            None => {
                return None;
            },
        },
    };
    let dir = join_path(base.as_str(), "nitro");
    Some(join_path(dir.as_str(), "fonts.idx"))
}

// ---------------------------------------------------------------------
// there and back
// ---------------------------------------------------------------------

/// `one` reads back what `put` wrote for `x`, whatever follows it.
spec fn reads_back<T>(put: spec_fn(T) -> Seq<u8>, one: spec_fn(Seq<u8>) -> Taken<T>, x: T) -> bool {
    forall|rest: Seq<u8>| #[trigger] one(put(x) + rest) == Some((x, rest))
}

proof fn lemma_take_le(n: nat, k: nat, rest: Seq<u8>)
    requires
        n < bytes_hold(k),
    ensures
        take_number(le(n, k) + rest, k) == Some((n, rest)),
{
    lemma_le(n, k);
    let s = le(n, k) + rest;
    assert(s.take(k as int) =~= le(n, k));
    assert(s.skip(k as int) =~= rest);
}

proof fn lemma_take_text(s: Seq<char>, rest: Seq<u8>)
    requires
        encode_utf8(s).len() <= MAX_BYTES,
    ensures
        take_text(put_text(s) + rest) == Some((s, rest)),
{
    lemma_powers();
    let b = encode_utf8(s);
    encode_utf8_valid_utf8(s);
    encode_utf8_decode_utf8(s);
    assert(put_text(s) + rest =~= le(b.len(), 4) + (b + rest));
    lemma_take_le(b.len(), 4, b + rest);
    assert((b + rest).take(b.len() as int) =~= b);
    assert((b + rest).skip(b.len() as int) =~= rest);
}

proof fn lemma_take_bool(v: bool, rest: Seq<u8>)
    ensures
        take_bool(put_bool(v) + rest) == Some((v, rest)),
{
    let s = put_bool(v) + rest;
    assert(s.take(1) =~= put_bool(v));
    assert(s.skip(1) =~= rest);
    assert(put_bool(v).drop_first() =~= Seq::<u8>::empty());
    reveal_with_fuel(number, 2);
}

proof fn lemma_take_dir(d: DirView)
    requires
        encode_utf8(d.path).len() <= MAX_BYTES,
    ensures
        reads_back(|x: DirView| put_dir(x), |b: Seq<u8>| take_dir(b), d),
{
    lemma_powers();
    let put = |x: DirView| put_dir(x);
    let one = |b: Seq<u8>| take_dir(b);
    assert forall|rest: Seq<u8>| #[trigger] one(put(d) + rest) == Some((d, rest)) by {
        let r3 = le(d.files as nat, 4) + rest;
        let r2 = le(d.mtime_nanos as nat, 4) + r3;
        let r1 = le(d.mtime_secs as nat, 8) + r2;
        assert(put_dir(d) + rest =~= put_text(d.path) + r1);
        lemma_take_text(d.path, r1);
        lemma_take_le(d.mtime_secs as nat, 8, r2);
        lemma_take_le(d.mtime_nanos as nat, 4, r3);
        lemma_take_le(d.files as nat, 4, rest);
    }
}

proof fn lemma_take_file(f: FileView)
    requires
        encode_utf8(f.path).len() <= MAX_BYTES,
    ensures
        reads_back(|x: FileView| put_file(x), |b: Seq<u8>| take_file(b), f),
{
    lemma_powers();
    let put = |x: FileView| put_file(x);
    let one = |b: Seq<u8>| take_file(b);
    assert forall|rest: Seq<u8>| #[trigger] one(put(f) + rest) == Some((f, rest)) by {
        let r3 = le(f.mtime_nanos as nat, 4) + rest;
        let r2 = le(f.mtime_secs as nat, 8) + r3;
        let r1 = le(f.len as nat, 8) + r2;
        assert(put_file(f) + rest =~= put_text(f.path) + r1);
        lemma_take_text(f.path, r1);
        lemma_take_le(f.len as nat, 8, r2);
        lemma_take_le(f.mtime_secs as nat, 8, r3);
        lemma_take_le(f.mtime_nanos as nat, 4, rest);
    }
}

proof fn lemma_take_face_head(f: FaceView, rest: Seq<u8>)
    ensures
        take_face_head(
            le(f.file as nat, 4) + le(f.index as nat, 4) + le(f.weight as nat, 4) + le(
                f.stretch as nat,
                4,
            ) + rest,
        ) == Some(((f.file as nat, f.index as nat, f.weight as nat, f.stretch as nat), rest)),
{
    lemma_powers();
    let r3 = le(f.stretch as nat, 4) + rest;
    let r2 = le(f.weight as nat, 4) + r3;
    let r1 = le(f.index as nat, 4) + r2;
    assert(le(f.file as nat, 4) + le(f.index as nat, 4) + le(f.weight as nat, 4) + le(
        f.stretch as nat,
        4,
    ) + rest =~= le(f.file as nat, 4) + r1);
    lemma_take_le(f.file as nat, 4, r1);
    lemma_take_le(f.index as nat, 4, r2);
    lemma_take_le(f.weight as nat, 4, r3);
    lemma_take_le(f.stretch as nat, 4, rest);
}

proof fn lemma_take_one_face(f: FaceView, files: nat, rest: Seq<u8>)
    requires
        encode_utf8(f.family).len() <= MAX_BYTES,
    ensures
        take_face(put_face(f) + rest, files) == (if f.file < files {
            Some((f, rest))
        } else {
            None
        }),
{
    let r6 = put_text(f.family) + rest;
    let r5 = put_bool(f.monospace) + r6;
    let r4 = put_bool(f.italic) + r5;
    assert(put_face(f) + rest =~= le(f.file as nat, 4) + le(f.index as nat, 4) + le(
        f.weight as nat,
        4,
    ) + le(f.stretch as nat, 4) + r4);
    lemma_take_face_head(f, r4);
    lemma_take_bool(f.italic, r5);
    lemma_take_bool(f.monospace, r6);
    lemma_take_text(f.family, rest);
}

proof fn lemma_take_face(f: FaceView, files: nat)
    requires
        encode_utf8(f.family).len() <= MAX_BYTES,
        f.file < files,
    ensures
        reads_back(|x: FaceView| put_face(x), |b: Seq<u8>| take_face(b, files), f),
{
    let put = |x: FaceView| put_face(x);
    let one = |b: Seq<u8>| take_face(b, files);
    assert forall|rest: Seq<u8>| #[trigger] one(put(f) + rest) == Some((f, rest)) by {
        lemma_take_one_face(f, files, rest);
    }
}

proof fn lemma_take_all<T>(
    s: Seq<T>,
    put: spec_fn(T) -> Seq<u8>,
    one: spec_fn(Seq<u8>) -> Taken<T>,
    rest: Seq<u8>,
)
    requires
        forall|i: int| 0 <= i < s.len() ==> reads_back(put, one, #[trigger] s[i]),
    ensures
        take_all(put_all(s, put) + rest, s.len(), one) == Some((s, rest)),
    decreases s.len(),
{
    if s.len() == 0 {
        assert(put_all(s, put) + rest =~= rest);
        assert(s =~= Seq::<T>::empty());
    } else {
        let tail = s.drop_first();
        assert forall|i: int| 0 <= i < tail.len() implies reads_back(put, one, #[trigger] tail[i]) by {
            assert(tail[i] == s[i + 1]);
        }
        lemma_take_all(tail, put, one, rest);
        let r1 = put_all(tail, put) + rest;
        assert(put_all(s, put) + rest =~= put(s[0]) + r1);
        assert(reads_back(put, one, s[0]));
        assert(one(put(s[0]) + r1) == Some((s[0], r1)));
        assert(seq![s[0]] + tail =~= s);
    }
}

proof fn lemma_take_run<T>(
    s: Seq<T>,
    put: spec_fn(T) -> Seq<u8>,
    one: spec_fn(Seq<u8>) -> Taken<T>,
    rest: Seq<u8>,
)
    requires
        s.len() <= MAX_BYTES,
        forall|i: int| 0 <= i < s.len() ==> reads_back(put, one, #[trigger] s[i]),
    ensures
        take_run(le(s.len(), 4) + put_all(s, put) + rest, one) == Some((s, rest)),
{
    lemma_powers();
    lemma_take_all(s, put, one, rest);
    let r1 = put_all(s, put) + rest;
    assert(le(s.len(), 4) + put_all(s, put) + rest =~= le(s.len(), 4) + r1);
    lemma_take_le(s.len(), 4, r1);
}

/// Each thing takes part of the bytes of a run, and at least one of them.
proof fn lemma_put_sizes<T>(s: Seq<T>, put: spec_fn(T) -> Seq<u8>)
    requires
        forall|i: int| 0 <= i < s.len() ==> put(#[trigger] s[i]).len() > 0,
    ensures
        s.len() <= put_all(s, put).len(),
        forall|i: int| 0 <= i < s.len() ==> put(#[trigger] s[i]).len() <= put_all(s, put).len(),
    decreases s.len(),
{
    if s.len() > 0 {
        let tail = s.drop_first();
        assert forall|i: int| 0 <= i < tail.len() implies put(#[trigger] tail[i]).len() > 0 by {
            assert(tail[i] == s[i + 1]);
        }
        lemma_put_sizes(tail, put);
        assert(put(s[0]).len() > 0);
        assert forall|i: int| 0 <= i < s.len() implies put(#[trigger] s[i]).len() <= put_all(
            s,
            put,
        ).len() by {
            if i > 0 {
                assert(tail[i - 1] == s[i]);
            }
        }
    }
}

/// Whether every face of an index is of a file of that index.
pub open spec fn sound(ix: IndexView) -> bool {
    forall|i: int| 0 <= i < ix.faces.len() ==> (#[trigger] ix.faces[i]).file < ix.files.len()
}

proof fn lemma_take_dirs(dirs: Seq<DirView>, rest: Seq<u8>)
    requires
        put_all(dirs, |d: DirView| put_dir(d)).len() <= MAX_BYTES,
    ensures
        take_run(
            le(dirs.len(), 4) + put_all(dirs, |d: DirView| put_dir(d)) + rest,
            |b: Seq<u8>| take_dir(b),
        ) == Some((dirs, rest)),
{
    let put = |d: DirView| put_dir(d);
    let one = |b: Seq<u8>| take_dir(b);
    assert forall|i: int| 0 <= i < dirs.len() implies put(#[trigger] dirs[i]).len() > 0 by {
        lemma_le(encode_utf8(dirs[i].path).len(), 4);
    }
    lemma_put_sizes(dirs, put);
    assert forall|i: int| 0 <= i < dirs.len() implies reads_back(put, one, #[trigger] dirs[i]) by {
        assert(put(dirs[i]).len() <= put_all(dirs, put).len());
        lemma_take_dir(dirs[i]);
    }
    lemma_take_run(dirs, put, one, rest);
}

proof fn lemma_take_files(files: Seq<FileView>, rest: Seq<u8>)
    requires
        put_all(files, |f: FileView| put_file(f)).len() <= MAX_BYTES,
    ensures
        take_run(
            le(files.len(), 4) + put_all(files, |f: FileView| put_file(f)) + rest,
            |b: Seq<u8>| take_file(b),
        ) == Some((files, rest)),
{
    let put = |f: FileView| put_file(f);
    let one = |b: Seq<u8>| take_file(b);
    assert forall|i: int| 0 <= i < files.len() implies put(#[trigger] files[i]).len() > 0 by {
        lemma_le(encode_utf8(files[i].path).len(), 4);
    }
    lemma_put_sizes(files, put);
    assert forall|i: int| 0 <= i < files.len() implies reads_back(put, one, #[trigger] files[i]) by {
        assert(put(files[i]).len() <= put_all(files, put).len());
        lemma_take_file(files[i]);
    }
    lemma_take_run(files, put, one, rest);
}

proof fn lemma_take_faces(faces: Seq<FaceView>, files: nat, rest: Seq<u8>)
    requires
        put_all(faces, |f: FaceView| put_face(f)).len() <= MAX_BYTES,
        forall|i: int| 0 <= i < faces.len() ==> (#[trigger] faces[i]).file < files,
    ensures
        take_run(
            le(faces.len(), 4) + put_all(faces, |f: FaceView| put_face(f)) + rest,
            |b: Seq<u8>| take_face(b, files),
        ) == Some((faces, rest)),
{
    let put = |f: FaceView| put_face(f);
    let one = |b: Seq<u8>| take_face(b, files);
    assert forall|i: int| 0 <= i < faces.len() implies put(#[trigger] faces[i]).len() > 0 by {
        lemma_le(faces[i].file as nat, 4);
    }
    lemma_put_sizes(faces, put);
    assert forall|i: int| 0 <= i < faces.len() implies reads_back(put, one, #[trigger] faces[i]) by {
        assert(put(faces[i]).len() <= put_all(faces, put).len());
        lemma_take_face(faces[i], files);
    }
    lemma_take_run(faces, put, one, rest);
}

proof fn lemma_take_stray_face(faces: Seq<FaceView>, files: nat, rest: Seq<u8>, bad: int)
    requires
        0 <= bad < faces.len(),
        faces[bad].file >= files,
        forall|i: int|
            0 <= i < faces.len() ==> encode_utf8((#[trigger] faces[i]).family).len() <= MAX_BYTES,
    ensures
        take_all(
            put_all(faces, |f: FaceView| put_face(f)) + rest,
            faces.len(),
            |b: Seq<u8>| take_face(b, files),
        ) is None,
    decreases faces.len(),
{
    let put = |f: FaceView| put_face(f);
    let tail = faces.drop_first();
    let r1 = put_all(tail, put) + rest;
    assert(put_all(faces, put) + rest =~= put_face(faces[0]) + r1);
    assert(encode_utf8(faces[0].family).len() <= MAX_BYTES);
    lemma_take_one_face(faces[0], files, r1);
    if faces[0].file < files {
        assert(tail[bad - 1] == faces[bad]);
        assert forall|i: int| 0 <= i < tail.len() implies encode_utf8(
            (#[trigger] tail[i]).family,
        ).len() <= MAX_BYTES by {
            assert(tail[i] == faces[i + 1]);
        }
        lemma_take_stray_face(tail, files, rest, bad - 1);
    }
}

/// A run of faces one of which is of no file is not read.
proof fn lemma_take_no_faces(faces: Seq<FaceView>, files: nat, rest: Seq<u8>, bad: int)
    requires
        put_all(faces, |f: FaceView| put_face(f)).len() <= MAX_BYTES,
        0 <= bad < faces.len(),
        faces[bad].file >= files,
    ensures
        take_run(
            le(faces.len(), 4) + put_all(faces, |f: FaceView| put_face(f)) + rest,
            |b: Seq<u8>| take_face(b, files),
        ) is None,
{
    let put = |f: FaceView| put_face(f);
    assert forall|i: int| 0 <= i < faces.len() implies put(#[trigger] faces[i]).len() > 0 by {
        lemma_le(faces[i].file as nat, 4);
    }
    lemma_put_sizes(faces, put);
    assert forall|i: int| 0 <= i < faces.len() implies encode_utf8(
        (#[trigger] faces[i]).family,
    ).len() <= MAX_BYTES by {
        assert(put(faces[i]).len() <= put_all(faces, put).len());
    }
    lemma_powers();
    lemma_take_stray_face(faces, files, rest, bad);
    let r1 = put_all(faces, put) + rest;
    assert(le(faces.len(), 4) + put_all(faces, put) + rest =~= le(faces.len(), 4) + r1);
    lemma_take_le(faces.len(), 4, r1);
}

/// What was encoded is what is decoded, where the faces are of the files of
/// the index; an index with a face of any other file decodes to nothing.
/// This holds of every index whose bytes are not too many.
pub proof fn encode_decode_round_trips(ix: IndexView)
    requires
        encoded(ix).len() <= MAX_BYTES,
    ensures
        decoded(encoded(ix)) == (if sound(ix) {
            Some(ix)
        } else {
            None
        }),
{
    reveal(take_index);
    let pd = |d: DirView| put_dir(d);
    let pf = |f: FileView| put_file(f);
    let pc = |f: FaceView| put_face(f);
    let end = Seq::<u8>::empty();
    let faces = le(ix.faces.len(), 4) + put_all(ix.faces, pc) + end;
    let files = le(ix.files.len(), 4) + put_all(ix.files, pf) + faces;
    let dirs = le(ix.dirs.len(), 4) + put_all(ix.dirs, pd) + files;
    let head = le(VERSION as nat, 4) + dirs;
    let all = encoded(ix);
    assert(all =~= magic() + head);
    assert(take_head(all) == Some(((), dirs))) by {
        lemma_powers();
        assert(all.take(8) =~= magic());
        assert(all.skip(8) =~= head);
        lemma_take_le(VERSION as nat, 4, dirs);
    }
    lemma_take_dirs(ix.dirs, files);
    lemma_take_files(ix.files, faces);
    if sound(ix) {
        lemma_take_faces(ix.faces, ix.files.len(), end);
    } else {
        let bad = choose|i: int|
            0 <= i < ix.faces.len() && (#[trigger] ix.faces[i]).file >= ix.files.len();
        lemma_take_no_faces(ix.faces, ix.files.len(), end, bad);
    }
}

/// A reading that succeeds does not look at what follows.
spec fn looks_no_further<T>(one: spec_fn(Seq<u8>) -> Taken<T>) -> bool {
    forall|s: Seq<u8>, more: Seq<u8>|
        #![trigger one(s), one(s + more)]
        one(s) matches Some((x, rest)) ==> one(s + more) == Some((x, rest + more))
}

proof fn lemma_bytes_further(s: Seq<u8>, n: nat, more: Seq<u8>)
    requires
        n <= s.len(),
    ensures
        take_bytes(s + more, n) == Some((s.take(n as int), s.skip(n as int) + more)),
        take_number(s + more, n) == Some((number(s.take(n as int)), s.skip(n as int) + more)),
{
    assert((s + more).take(n as int) =~= s.take(n as int));
    assert((s + more).skip(n as int) =~= s.skip(n as int) + more);
}

proof fn lemma_text_further(s: Seq<u8>, more: Seq<u8>)
    requires
        take_text(s) is Some,
    ensures
        take_text(s + more) == Some(((take_text(s)->0).0, (take_text(s)->0).1 + more)),
{
    lemma_bytes_further(s, 4, more);
    let n = number(s.take(4));
    lemma_bytes_further(s.skip(4), n, more);
}

proof fn lemma_dir_further(s: Seq<u8>, more: Seq<u8>)
    requires
        take_dir(s) is Some,
    ensures
        take_dir(s + more) == Some(((take_dir(s)->0).0, (take_dir(s)->0).1 + more)),
{
    lemma_text_further(s, more);
    let s1 = (take_text(s)->0).1;
    lemma_bytes_further(s1, 8, more);
    let s2 = s1.skip(8);
    lemma_bytes_further(s2, 4, more);
    let s3 = s2.skip(4);
    lemma_bytes_further(s3, 4, more);
}

proof fn lemma_file_further(s: Seq<u8>, more: Seq<u8>)
    requires
        take_file(s) is Some,
    ensures
        take_file(s + more) == Some(((take_file(s)->0).0, (take_file(s)->0).1 + more)),
{
    lemma_text_further(s, more);
    let s1 = (take_text(s)->0).1;
    lemma_bytes_further(s1, 8, more);
    let s2 = s1.skip(8);
    lemma_bytes_further(s2, 8, more);
    let s3 = s2.skip(8);
    lemma_bytes_further(s3, 4, more);
}

proof fn lemma_face_further(s: Seq<u8>, files: nat, more: Seq<u8>)
    requires
        take_face(s, files) is Some,
    ensures
        take_face(s + more, files) == Some(
            ((take_face(s, files)->0).0, (take_face(s, files)->0).1 + more),
        ),
{
    lemma_bytes_further(s, 4, more);
    let s1 = s.skip(4);
    lemma_bytes_further(s1, 4, more);
    let s2 = s1.skip(4);
    lemma_bytes_further(s2, 4, more);
    let s3 = s2.skip(4);
    lemma_bytes_further(s3, 4, more);
    let s4 = s3.skip(4);
    assert(take_face_head(s + more) == Some(((take_face_head(s)->0).0, s4 + more)));
    lemma_bytes_further(s4, 1, more);
    let s5 = s4.skip(1);
    lemma_bytes_further(s5, 1, more);
    let s6 = s5.skip(1);
    lemma_text_further(s6, more);
}

proof fn lemma_all_further<T>(
    s: Seq<u8>,
    n: nat,
    one: spec_fn(Seq<u8>) -> Taken<T>,
    more: Seq<u8>,
)
    requires
        looks_no_further(one),
        take_all(s, n, one) is Some,
    ensures
        take_all(s + more, n, one) == Some(
            ((take_all(s, n, one)->0).0, (take_all(s, n, one)->0).1 + more),
        ),
    decreases n,
{
    if n > 0 {
        let (x, rest) = one(s)->0;
        assert(one(s + more) == Some((x, rest + more)));
        lemma_all_further(rest, (n - 1) as nat, one, more);
    }
}

proof fn lemma_run_further<T>(s: Seq<u8>, one: spec_fn(Seq<u8>) -> Taken<T>, more: Seq<u8>)
    requires
        looks_no_further(one),
        take_run(s, one) is Some,
    ensures
        take_run(s + more, one) == Some(((take_run(s, one)->0).0, (take_run(s, one)->0).1 + more)),
{
    lemma_bytes_further(s, 4, more);
    lemma_all_further(s.skip(4), number(s.take(4)), one, more);
}

proof fn lemma_index_further(s: Seq<u8>, more: Seq<u8>)
    requires
        take_index(s) is Some,
    ensures
        take_index(s + more) == Some(((take_index(s)->0).0, (take_index(s)->0).1 + more)),
{
    reveal(take_index);
    let td = |b: Seq<u8>| take_dir(b);
    let tf = |b: Seq<u8>| take_file(b);
    assert(looks_no_further(td)) by {
        assert forall|a: Seq<u8>, b: Seq<u8>|
            #![trigger td(a), td(a + b)]
            td(a) is Some implies td(a + b) == Some(((td(a)->0).0, (td(a)->0).1 + b)) by {
            lemma_dir_further(a, b);
        }
    }
    assert(looks_no_further(tf)) by {
        assert forall|a: Seq<u8>, b: Seq<u8>|
            #![trigger tf(a), tf(a + b)]
            tf(a) is Some implies tf(a + b) == Some(((tf(a)->0).0, (tf(a)->0).1 + b)) by {
            lemma_file_further(a, b);
        }
    }
    lemma_bytes_further(s, 8, more);
    lemma_bytes_further(s.skip(8), 4, more);
    let s1 = (take_head(s)->0).1;
    lemma_run_further(s1, td, more);
    let s2 = (take_run(s1, td)->0).1;
    lemma_run_further(s2, tf, more);
    let (files, s3) = take_run(s2, tf)->0;
    let tc = |b: Seq<u8>| take_face(b, files.len());
    assert(looks_no_further(tc)) by {
        assert forall|a: Seq<u8>, b: Seq<u8>|
            #![trigger tc(a), tc(a + b)]
            tc(a) is Some implies tc(a + b) == Some(((tc(a)->0).0, (tc(a)->0).1 + b)) by {
            lemma_face_further(a, files.len(), b);
        }
    }
    lemma_run_further(s3, tc, more);
}

/// A cache that was cut short is no cache: no proper prefix of bytes that
/// decode decodes.
pub proof fn a_truncated_cache_is_rejected(bytes: Seq<u8>, cut: int)
    requires
        decoded(bytes) is Some,
        0 <= cut < bytes.len(),
    ensures
        decoded(bytes.take(cut)) is None,
{
    let head = bytes.take(cut);
    let more = bytes.skip(cut);
    if decoded(head) is Some {
        lemma_index_further(head, more);
        assert(head + more =~= bytes);
        assert((take_index(bytes)->0).1.len() == more.len());
    }
}

/// A cache with anything behind it is no cache.
pub proof fn trailing_bytes_are_rejected(bytes: Seq<u8>, more: Seq<u8>)
    requires
        decoded(bytes) is Some,
        more.len() > 0,
    ensures
        decoded(bytes + more) is None,
{
    lemma_index_further(bytes, more);
    assert((take_index(bytes + more)->0).1.len() == more.len());
}

/// Whatever decodes is sound: a face never points past the file list.
pub proof fn decoded_faces_have_files(bytes: Seq<u8>)
    requires
        decoded(bytes) is Some,
    ensures
        sound(decoded(bytes)->0),
{
    reveal(take_index);
    let ix = decoded(bytes)->0;
    let n = ix.files.len();
    let s1 = (take_head(bytes)->0).1;
    let s2 = (take_run(s1, |b: Seq<u8>| take_dir(b))->0).1;
    let s3 = (take_run(s2, |b: Seq<u8>| take_file(b))->0).1;
    lemma_faces_sound(s3.skip(4), number(s3.take(4)), n, ix.faces, (take_index(bytes)->0).1);
}

proof fn lemma_faces_sound(s: Seq<u8>, n: nat, files: nat, all: Seq<FaceView>, left: Seq<u8>)
    requires
        take_all(s, n, |b: Seq<u8>| take_face(b, files)) == Some((all, left)),
    ensures
        forall|i: int| 0 <= i < all.len() ==> (#[trigger] all[i]).file < files,
    decreases n,
{
    let one = |b: Seq<u8>| take_face(b, files);
    if n > 0 {
        let (x, rest) = one(s)->0;
        let tail = (take_all(rest, (n - 1) as nat, one)->0).0;
        lemma_faces_sound(rest, (n - 1) as nat, files, tail, left);
        lemma_powers();
        lemma_number_bound(s.take(4));
        assert forall|i: int| 0 <= i < all.len() implies (#[trigger] all[i]).file < files by {
            if i > 0 {
                assert(all[i] == tail[i - 1]);
            }
        }
    }
}

} // verus!
