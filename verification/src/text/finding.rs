//! How the files that hold fonts are found, and in what order they stand.

use vstd::prelude::*;
use vstd::string::*;

use crate::chars::{
    is_space, lemma_text_order, lower, text_before, trim, trimming_takes_only_white_space_off,
};
use crate::introspect::addressing::{a_piece_more_is_the_last, lacks};
use crate::introspect::sockets::path_join;
use crate::introspect::text::split;
use crate::text::index::{
    cache_file, decoded, dir_known, encode_decode_round_trips, encoded, file_known, le, number,
    sound, validates, DirView, FaceView, FileView, IndexView, MAX_BYTES,
};
use crate::text::paths::{lead_of, named_parts, parts_before, parts_of, path_before};
use crate::text::scan::{
    dirs_to_scan, extension, face_found, faces_found, family_from, file_faces, filled, font_path,
    last_dot, last_name, name_found, LEGACY_FAMILY, TYPOGRAPHIC_FAMILY,
};
use crate::text::sfnt::{be16, be32, face_offset, faces_in, is_collection, is_font};

verus! {

// ---------------------------------------------------------------------
// extensions
// ---------------------------------------------------------------------

proof fn lemma_last_dot(a: Seq<char>, b: Seq<char>)
    requires
        lacks(b, '.'),
    ensures
        last_dot(a + seq!['.'] + b) == Some(a.len() as int),
        last_dot(b) is None,
    decreases b.len(),
{
    let all = a + seq!['.'] + b;
    if b.len() > 0 {
        let rest = b.drop_last();
        assert(all.drop_last() =~= a + seq!['.'] + rest);
        assert(all.last() == b.last());
        assert(b.last() != '.');
        assert forall|i: int| 0 <= i < rest.len() implies rest[i] != '.' by {
            assert(rest[i] == b[i]);
        }
        lemma_last_dot(a, rest);
    } else {
        assert(all.last() == '.');
    }
}

/// Whether a text names something in a directory.
pub open spec fn names(s: Seq<char>) -> bool {
    s.len() > 0 && lacks(s, '/') && s != "."@ && s != ".."@
}

/// The extension of a path is what follows the last dot of its last name. A
/// name without a dot, or with one at its start alone, has none.
pub proof fn an_extension_follows_the_last_dot(dir: Seq<char>, stem: Seq<char>, e: Seq<char>)
    requires
        lacks(e, '.'),
        names(stem + seq!['.'] + e),
    ensures
        stem.len() > 0 ==> extension(dir + seq!['/'] + (stem + seq!['.'] + e)) == Some(e)
            && extension(stem + seq!['.'] + e) == Some(e),
        stem.len() == 0 ==> extension(dir + seq!['/'] + (stem + seq!['.'] + e)) is None && extension(
            stem + seq!['.'] + e,
        ) is None,
        names(e) ==> extension(dir + seq!['/'] + e) is None && extension(e) is None,
{
    let name = stem + seq!['.'] + e;
    lemma_last_dot(stem, e);
    assert(name.skip(stem.len() as int + 1) =~= e);
    lemma_names(dir, name);
    if names(e) {
        lemma_names(dir, e);
    }
}

proof fn lemma_names(dir: Seq<char>, name: Seq<char>)
    requires
        names(name),
    ensures
        last_name(split(dir + seq!['/'] + name, '/')) == Some(name),
        last_name(split(name, '/')) == Some(name),
{
    a_piece_more_is_the_last(dir, '/', name);
    assert(split(dir, '/').push(name).last() == name);
    assert(seq![name].last() == name);
}

/// A font file is known by its extension, in upper case as in lower.
pub proof fn a_font_file_is_known_by_its_extension(dir: Seq<char>, stem: Seq<char>, e: Seq<char>)
    requires
        lacks(e, '.'),
        stem.len() > 0,
        names(stem + seq!['.'] + e),
    ensures
        font_path(dir + seq!['/'] + (stem + seq!['.'] + e)) <==> {
            ||| lower(e) == "ttf"@
            ||| lower(e) == "otf"@
            ||| lower(e) == "ttc"@
            ||| lower(e) == "otc"@
        },
{
    an_extension_follows_the_last_dot(dir, stem, e);
}

// ---------------------------------------------------------------------
// directories
// ---------------------------------------------------------------------

/// The directories that were chosen are looked at in the order they are
/// named, and one without a name is passed over.
pub proof fn chosen_directories_come_in_order(
    a: Seq<char>,
    b: Seq<char>,
    home: Option<Seq<char>>,
)
    requires
        lacks(b, ':'),
    ensures
        dirs_to_scan(Some(a + seq![':'] + b), home) == dirs_to_scan(Some(a), home) + dirs_to_scan(
            Some(b),
            home,
        ),
        b.len() > 0 ==> dirs_to_scan(Some(b), home) == seq![b],
        b.len() == 0 ==> dirs_to_scan(Some(b), home).len() == 0,
{
    a_piece_more_is_the_last(a, ':', b);
    let all = split(a, ':').push(b);
    assert(all.drop_last() =~= split(a, ':'));
    let one = seq![b];
    assert(one.drop_last() =~= Seq::empty());
    assert(filled(one.drop_last()) =~= Seq::empty());
    if b.len() > 0 {
        assert(filled(one) =~= seq![b]);
    } else {
        assert(filled(one) =~= Seq::empty());
    }
    assert(filled(all) =~= filled(split(a, ':')) + filled(one));
}

/// Where none was chosen, the directories of the system come first, and then
/// the one of the user where there is a user.
pub proof fn the_directory_of_the_user_comes_last(home: Seq<char>)
    requires
        home.len() > 0,
        home.last() != '/',
    ensures
        dirs_to_scan(None, None) == seq!["/usr/share/fonts"@, "/usr/local/share/fonts"@],
        dirs_to_scan(None, Some(home)) == dirs_to_scan(None, None).push(
            home + "/.local/share/fonts"@,
        ),
{
    reveal_strlit("/.local/share/fonts");
    reveal_strlit(".local/share/fonts");
    assert(home + seq!['/'] + ".local/share/fonts"@ =~= home + "/.local/share/fonts"@);
}

// ---------------------------------------------------------------------
// faces
// ---------------------------------------------------------------------

/// Whether a text is white space from end to end.
pub open spec fn blank(s: Seq<char>) -> bool {
    forall|i: int| 0 <= i < s.len() ==> is_space(#[trigger] s[i])
}

proof fn lemma_blank(s: Seq<char>)
    ensures
        trim(s).len() == 0 <==> blank(s),
{
    trimming_takes_only_white_space_off(s);
    let (i, j) = choose|i: int, j: int|
        {
            &&& 0 <= i <= j <= s.len()
            &&& trim(s) == #[trigger] s.subrange(i, j)
            &&& forall|k: int| 0 <= k < i ==> is_space(#[trigger] s[k])
            &&& forall|k: int| j <= k < s.len() ==> is_space(#[trigger] s[k])
        };
    if trim(s).len() == 0 {
        assert(i == j);
    } else {
        assert(trim(s)[0] == s[i]);
        assert(!is_space(s[i]));
    }
}

/// The typographic family name of a face is its family where it says
/// something; else the legacy one is, where that says something; else it has
/// none. The family is never blank at either end.
pub proof fn a_blank_family_is_none(typographic: Seq<char>, legacy: Seq<char>)
    ensures
        !blank(typographic) ==> family_from(Some(typographic), Some(legacy)) == Some(
            trim(typographic),
        ) && family_from(Some(typographic), None) == Some(trim(typographic)),
        blank(typographic) && !blank(legacy) ==> family_from(Some(typographic), Some(legacy))
            == Some(trim(legacy)),
        !blank(legacy) ==> family_from(None, Some(legacy)) == Some(trim(legacy)),
        blank(typographic) && blank(legacy) ==> family_from(Some(typographic), Some(legacy)) is None,
        blank(typographic) ==> family_from(Some(typographic), None) is None,
        blank(legacy) ==> family_from(None, Some(legacy)) is None,
        family_from(None, None) is None,
{
    lemma_blank(typographic);
    lemma_blank(legacy);
}

/// The faces of a file are those that can be read and have a name, each once,
/// in the order the file holds them.
pub proof fn a_file_gives_its_faces_in_order(file: u32, data: Seq<u8>, n: nat)
    ensures
        faces_found(file, data, n).len() <= n,
        forall|f: FaceView| #[trigger]
            faces_found(file, data, n).contains(f) <==> exists|i: nat|
                i < n && #[trigger] face_found(file, data, i) == Some(f),
        n <= u32::MAX ==> forall|i: int, j: int|
            0 <= i < j < faces_found(file, data, n).len() ==> (#[trigger] faces_found(
                file,
                data,
                n,
            )[i]).index < (#[trigger] faces_found(file, data, n)[j]).index < n,
        n <= u32::MAX ==> forall|i: int|
            0 <= i < faces_found(file, data, n).len() ==> (#[trigger] faces_found(
                file,
                data,
                n,
            )[i]).index < n && faces_found(file, data, n)[i].file == file && !blank(
                faces_found(file, data, n)[i].family,
            ),
    decreases n,
{
    let all = faces_found(file, data, n);
    if n > 0 {
        let m = (n - 1) as nat;
        a_file_gives_its_faces_in_order(file, data, m);
        let head = faces_found(file, data, m);
        let found = face_found(file, data, m);
        assert forall|f: FaceView| #[trigger] all.contains(f) <==> exists|i: nat|
            i < n && #[trigger] face_found(file, data, i) == Some(f) by {
            if all.contains(f) {
                let k = choose|k: int| 0 <= k < all.len() && all[k] == f;
                if k < head.len() {
                    assert(head[k] == f);
                    assert(head.contains(f));
                } else {
                    assert(face_found(file, data, m) == Some(f));
                }
            }
            if exists|i: nat| i < n && #[trigger] face_found(file, data, i) == Some(f) {
                let i = choose|i: nat| i < n && #[trigger] face_found(file, data, i) == Some(f);
                if i < m {
                    assert(head.contains(f));
                    let k = choose|k: int| 0 <= k < head.len() && head[k] == f;
                    assert(all[k] == f);
                } else {
                    assert(all.last() == f);
                }
            }
        }
        if found is Some {
            lemma_family(file, data, m);
        }
    } else {
        assert(all.len() == 0);
    }
}

proof fn lemma_family(file: u32, data: Seq<u8>, i: nat)
    ensures
        face_found(file, data, i) matches Some(f) ==> f.file == file && f.index == i as u32 && !blank(
            f.family,
        ),
{
    if let Some(f) = face_found(file, data, i) {
        let t = name_found(data, i, TYPOGRAPHIC_FAMILY);
        let l = name_found(data, i, LEGACY_FAMILY);
        if t is Some {
            trimming_takes_only_white_space_off(t->0);
        }
        if l is Some {
            trimming_takes_only_white_space_off(l->0);
        }
    }
}

/// A long number is a short one above another.
pub proof fn a_long_number_is_two_short_ones(d: Seq<u8>, at: int)
    ensures
        be32(d, at) is Some <==> be16(d, at) is Some && be16(d, at + 2) is Some,
        be32(d, at) is Some ==> be32(d, at)->0 == be16(d, at)->0 * 65536 + be16(d, at + 2)->0,
        be16(d, at) is Some ==> be16(d, at)->0 / 256 == d[at] && be16(d, at)->0 % 256 == d[at + 1],
{
}

// ---------------------------------------------------------------------
// paths
// ---------------------------------------------------------------------

proof fn lemma_parts(dir: Seq<char>, name: Seq<char>)
    requires
        dir.len() > 0,
        lacks(name, '/'),
    ensures
        name.len() == 0 || name == "."@ ==> parts_of(dir + seq!['/'] + name) == parts_of(dir),
        names(name) ==> parts_of(dir + seq!['/'] + name) == parts_of(dir).push(seq!['3'] + name),
{
    let all = dir + seq!['/'] + name;
    a_piece_more_is_the_last(dir, '/', name);
    let pieces = split(dir, '/');
    assert(pieces.len() > 0);
    assert(pieces.push(name).drop_last() =~= pieces);
    assert(pieces.push(name)[0] == pieces[0]);
    assert(lead_of(all, pieces[0]) == lead_of(dir, pieces[0]));
    if names(name) {
        assert(parts_of(all) =~= parts_of(dir).push(seq!['3'] + name));
    }
}

proof fn lemma_parts_before(p: Seq<Seq<char>>, a: Seq<Seq<char>>, b: Seq<Seq<char>>)
    ensures
        parts_before(p + a, p + b) == parts_before(a, b),
    decreases p.len(),
{
    if p.len() == 0 {
        assert(p + a =~= a);
        assert(p + b =~= b);
    } else {
        assert((p + a).drop_first() =~= p.drop_first() + a);
        assert((p + b).drop_first() =~= p.drop_first() + b);
        lemma_parts_before(p.drop_first(), a, b);
    }
}

/// A directory comes before what is in it, and two names in a directory
/// stand as the names do, whatever the directory is.
pub proof fn a_directory_comes_before_what_is_in_it(dir: Seq<char>, a: Seq<char>, b: Seq<char>)
    requires
        dir.len() > 0,
        names(a),
        names(b),
    ensures
        path_before(dir, dir + seq!['/'] + a),
        path_before(dir + seq!['/'] + a, dir + seq!['/'] + b) <==> text_before(a, b),
{
    lemma_parts(dir, a);
    lemma_parts(dir, b);
    let p = parts_of(dir);
    let x = seq!['3'] + a;
    let y = seq!['3'] + b;
    assert(p + Seq::empty() =~= p);
    assert(p + seq![x] =~= p.push(x));
    assert(p + seq![y] =~= p.push(y));
    lemma_parts_before(p, Seq::empty(), seq![x]);
    lemma_parts_before(p, seq![x], seq![y]);
    assert(x.drop_first() =~= a);
    assert(y.drop_first() =~= b);
    assert(text_before(x, y) == text_before(a, b));
    assert(seq![x].drop_first() =~= Seq::<Seq<char>>::empty());
    assert(seq![y].drop_first() =~= Seq::<Seq<char>>::empty());
    let none = Seq::<Seq<char>>::empty();
    assert(seq![x][0] == x && seq![y][0] == y);
    if x == y {
        assert(a == b);
        lemma_text_order(a, a);
        assert(!parts_before(none, none));
    }
    assert(parts_before(seq![x], seq![y]) == text_before(a, b));
}

/// A slash at the end of a path, a doubled one, or a dot between two, changes
/// nothing about where it stands.
pub proof fn a_dot_leads_nowhere(dir: Seq<char>, name: Seq<char>)
    requires
        dir.len() > 0,
        names(name),
    ensures
        parts_of(dir + seq!['/']) == parts_of(dir),
        parts_of(dir + seq!['/'] + "."@) == parts_of(dir),
        parts_of((dir + seq!['/']) + seq!['/'] + name) == parts_of(dir + seq!['/'] + name),
        parts_of((dir + seq!['/'] + "."@) + seq!['/'] + name) == parts_of(
            dir + seq!['/'] + name,
        ),
{
    reveal_strlit(".");
    lemma_parts(dir, Seq::empty());
    assert(dir + seq!['/'] + Seq::<char>::empty() =~= dir + seq!['/']);
    lemma_parts(dir, "."@);
    lemma_parts(dir, name);
    lemma_parts(dir + seq!['/'], name);
    lemma_parts(dir + seq!['/'] + "."@, name);
}

// ---------------------------------------------------------------------
// the index of fonts
// ---------------------------------------------------------------------

/// A font starts with one of three marks, and a collection of fonts with
/// another.
pub proof fn a_font_starts_with_its_mark(d: Seq<u8>, at: int)
    ensures
        is_font(d, at) <==> 0 <= at && at + 4 <= d.len() && ({
            let mark = d.subrange(at, at + 4);
            ||| mark == seq![0u8, 1, 0, 0]
            ||| mark == seq![79u8, 84, 84, 79]
            ||| mark == seq![116u8, 114, 117, 101]
        }),
        is_collection(d) <==> 4 <= d.len() && d.subrange(0, 4) == seq![116u8, 116, 99, 102],
{
    if 0 <= at && at + 4 <= d.len() {
        lemma_mark(d, at, 0, 1, 0, 0);
        lemma_mark(d, at, 79, 84, 84, 79);
        lemma_mark(d, at, 116, 114, 117, 101);
    }
    if 4 <= d.len() {
        lemma_mark(d, 0, 116, 116, 99, 102);
    }
}

proof fn lemma_mark(d: Seq<u8>, at: int, a: u8, b: u8, c: u8, e: u8)
    requires
        0 <= at,
        at + 4 <= d.len(),
    ensures
        be32(d, at) == Some((a * 16777216 + b * 65536 + c * 256 + e) as nat) <==> d.subrange(
            at,
            at + 4,
        ) == seq![a, b, c, e],
{
    let s = d.subrange(at, at + 4);
    assert(s[0] == d[at] && s[1] == d[at + 1] && s[2] == d[at + 2] && s[3] == d[at + 3]);
    if be32(d, at) == Some((a * 16777216 + b * 65536 + c * 256 + e) as nat) {
        assert(s =~= seq![a, b, c, e]);
    }
}

/// A file that is no font gives no faces; one that holds a single font gives
/// at most one, at its start; and a collection gives no more than it says.
pub proof fn a_file_gives_what_it_says(file: u32, data: Seq<u8>)
    ensures
        !is_font(data, 0) && !is_collection(data) ==> file_faces(file, data).len() == 0,
        is_font(data, 0) ==> file_faces(file, data).len() <= 1 && face_offset(data, 0) == Some(0nat)
            && face_offset(data, 1) is None,
        is_collection(data) && be32(data, 8) is Some ==> file_faces(file, data).len() <= be32(
            data,
            8,
        )->0,
        is_collection(data) && be32(data, 8) is None ==> file_faces(file, data).len() == 0,
{
    if let Some(n) = faces_in(data) {
        a_file_gives_its_faces_in_order(file, data, n);
    }
}

/// The faces of a collection start where its table says, one after another.
pub proof fn a_collection_has_a_table(data: Seq<u8>, index: nat)
    requires
        is_collection(data),
        be32(data, 8) is Some,
    ensures
        index < be32(data, 8)->0 ==> face_offset(data, index) == be32(data, 12 + 4 * index as int),
        index >= be32(data, 8)->0 ==> face_offset(data, index) is None,
{
}

/// What was stored is of use only where the directories and the files are as
/// they were then, and only where it is known of each of them when it was
/// last changed.
pub proof fn an_unstamped_file_is_never_trusted(
    bytes: Seq<u8>,
    dirs: Seq<DirView>,
    files: Seq<FileView>,
    i: int,
)
    requires
        validates(bytes, dirs, files),
    ensures
        decoded(bytes) is Some,
        decoded(bytes)->0.dirs == dirs && decoded(bytes)->0.files == files,
        0 <= i < dirs.len() ==> !(dirs[i].mtime_secs == 0 && dirs[i].mtime_nanos == 0),
        0 <= i < files.len() ==> !(files[i].len == 0 && files[i].mtime_secs == 0
            && files[i].mtime_nanos == 0),
{
    if 0 <= i < dirs.len() {
        assert(dir_known(dirs[i]));
    }
    if 0 <= i < files.len() {
        assert(file_known(files[i]));
    }
}

/// Directories and files that bear a time are trusted where nothing changed.
pub proof fn stamped_files_are_trusted(ix: IndexView)
    requires
        sound(ix),
        encoded(ix).len() <= MAX_BYTES,
        forall|i: int|
            0 <= i < ix.dirs.len() ==> (#[trigger] ix.dirs[i]).mtime_secs != 0
                || ix.dirs[i].mtime_nanos != 0,
        forall|i: int|
            0 <= i < ix.files.len() ==> (#[trigger] ix.files[i]).len != 0 || ix.files[i].mtime_secs
                != 0 || ix.files[i].mtime_nanos != 0,
    ensures
        validates(encoded(ix), ix.dirs, ix.files),
{
    encode_decode_round_trips(ix);
}

/// The index is stored where the user says, unless they say it shall not be;
/// else in the cache directory of the user, and else in the usual one below
/// their home.
pub proof fn the_index_has_its_place(
    chosen: Seq<char>,
    base: Seq<char>,
    home: Option<Seq<char>>,
    other: Option<Seq<char>>,
)
    requires
        base.len() > 0,
        base.last() != '/',
    ensures
        chosen == "off"@ || chosen == "none"@ || chosen == "0"@ || chosen.len() == 0 ==> cache_file(
            Some(chosen),
            other,
            home,
        ) is None,
        chosen.len() > 0 && chosen[0] == '/' ==> cache_file(Some(chosen), other, home) == Some(
            chosen,
        ),
        cache_file(None, Some(base), home) == Some(base + "/nitro/fonts.idx"@),
        cache_file(None, None, Some(base)) == cache_file(None, Some(base + "/.cache"@), home),
        cache_file(None, None, None) is None,
{
    reveal_strlit("off");
    reveal_strlit("none");
    reveal_strlit("0");
    reveal_strlit("");
    reveal_strlit("nitro");
    reveal_strlit("fonts.idx");
    reveal_strlit(".cache");
    reveal_strlit("/.cache");
    reveal_strlit("/nitro/fonts.idx");
    if chosen.len() == 0 {
        assert(chosen =~= ""@);
    }
    let a = path_join(base, "nitro"@);
    assert(a.last() == 'o');
    assert(path_join(a, "fonts.idx"@) =~= base + "/nitro/fonts.idx"@);
    assert(path_join(base, ".cache"@) =~= base + "/.cache"@);
}

/// What is stored starts with its mark and its version, and a number in it
/// with its lowest byte.
pub proof fn the_stored_index_starts_with_its_mark(ix: IndexView, lo: u8, hi: u8)
    ensures
        encoded(ix).len() >= 12,
        encoded(ix).take(12) == seq![78u8, 73, 84, 82, 79, 70, 78, 84, 1, 0, 0, 0],
        number(seq![lo, hi]) == lo + 256 * hi,
        le((lo + 256 * hi) as nat, 2) == seq![lo, hi],
{
    reveal_with_fuel(le, 5);
    reveal_with_fuel(number, 3);
    assert(le(1, 4) =~= seq![1u8, 0, 0, 0]);
    assert(encoded(ix).take(12) =~= seq![78u8, 73, 84, 82, 79, 70, 78, 84, 1, 0, 0, 0]);
    let two = seq![lo, hi];
    assert(two.drop_first() =~= seq![hi]);
    assert(two.drop_first().drop_first() =~= Seq::<u8>::empty());
    assert(le((lo + 256 * hi) as nat, 2) =~= two);
}

/// An absolute path comes before one from where one is, that before one from
/// further up, and that before one that starts with a name; two dots lead up
/// and stand before any name.
pub proof fn paths_start_from_the_root(a: Seq<char>, b: Seq<char>, dir: Seq<char>)
    requires
        names(a),
        names(b),
        dir.len() > 0,
    ensures
        path_before(seq!['/'] + a, seq!['.', '/'] + b),
        path_before(seq!['.', '/'] + a, seq!['.', '.', '/'] + b),
        path_before(seq!['.', '.', '/'] + a, b),
        path_before(dir + seq!['/'] + seq!['.', '.'], dir + seq!['/'] + a),
        path_before(dir, dir + seq!['/'] + seq!['.', '.']),
{
    reveal_strlit(".");
    reveal_strlit("..");
    let none = Seq::<char>::empty();
    let dot = seq!['.'];
    let up = seq!['.', '.'];
    assert("."@ =~= dot);
    assert(".."@ =~= up);
    lemma_lead(none, a);
    lemma_lead(dot, a);
    lemma_lead(dot, b);
    lemma_lead(up, a);
    lemma_lead(up, b);
    assert(none + seq!['/'] + a =~= seq!['/'] + a);
    assert(dot + seq!['/'] + b =~= seq!['.', '/'] + b);
    assert(dot + seq!['/'] + a =~= seq!['.', '/'] + a);
    assert(up + seq!['/'] + a =~= seq!['.', '.', '/'] + a);
    assert(up + seq!['/'] + b =~= seq!['.', '.', '/'] + b);
    a_piece_more_is_the_last(none, '/', b);
    assert(seq![b].drop_last() =~= Seq::<Seq<char>>::empty());
    assert(named_parts(seq![b].drop_last()) =~= Seq::<Seq<char>>::empty());
    assert(parts_of(b) =~= seq![seq!['3'] + b]);
    lemma_parts(dir, a);
    a_piece_more_is_the_last(dir, '/', up);
    let pieces = split(dir, '/');
    assert(pieces.push(up).drop_last() =~= pieces);
    assert(parts_of(dir + seq!['/'] + up) =~= parts_of(dir).push(seq!['2']));
    let p = parts_of(dir);
    assert(p + Seq::empty() =~= p);
    assert(p + seq![seq!['2']] =~= p.push(seq!['2']));
    assert(p + seq![seq!['3'] + a] =~= p.push(seq!['3'] + a));
    lemma_parts_before(p, Seq::empty(), seq![seq!['2']]);
    lemma_parts_before(p, seq![seq!['2']], seq![seq!['3'] + a]);
    let three = seq!['3'] + a;
    assert(three[0] == '3');
    assert((seq!['3'] + b)[0] == '3');
    assert(seq!['2'][0] == '2' && seq!['1'][0] == '1' && seq!['0'][0] == '0');
}

proof fn lemma_lead(first: Seq<char>, name: Seq<char>)
    requires
        names(name),
        first.len() == 0 || first == "."@ || first == ".."@,
    ensures
        parts_of(first + seq!['/'] + name) == seq![
            if first.len() == 0 {
                seq!['0']
            } else if first == "."@ {
                seq!['1']
            } else {
                seq!['2']
            },
            seq!['3'] + name,
        ],
{
    reveal_strlit(".");
    reveal_strlit("..");
    assert(lacks(first, '/'));
    a_piece_more_is_the_last(Seq::empty(), '/', first);
    a_piece_more_is_the_last(first, '/', name);
    let pieces = seq![first].push(name);
    assert(pieces.drop_last() =~= seq![first]);
    assert(seq![first].drop_last() =~= Seq::<Seq<char>>::empty());
    assert(named_parts(seq![first].drop_last()) =~= Seq::<Seq<char>>::empty());
    assert("."@.len() == 1 && ".."@.len() == 2);
    let one = seq![first];
    let all = first + seq!['/'] + name;
    assert(one.last() == first && pieces.last() == name);
    assert(named_parts(one) =~= if first == ".."@ {
        seq![seq!['2']]
    } else {
        Seq::empty()
    });
    assert(named_parts(pieces) =~= named_parts(one).push(seq!['3'] + name));
    assert(split(all, '/') == pieces && pieces[0] == first);
    assert(all.len() > 0);
    assert(parts_of(first + seq!['/'] + name) =~= seq![
        if first.len() == 0 {
            seq!['0']
        } else if first == "."@ {
            seq!['1']
        } else {
            seq!['2']
        },
        seq!['3'] + name,
    ]);
}

} // verus!
