//! Font files as bytes: which faces are in them, whether their tables can be
//! read, and what the font reader says of each face.

use vstd::prelude::*;

use crate::arena::text_view;

verus! {

// ---------------------------------------------------------------------
// big-endian numbers
// ---------------------------------------------------------------------

/// The two-byte number at `at`.
pub open spec fn be16(d: Seq<u8>, at: int) -> Option<nat> {
    if 0 <= at && at + 2 <= d.len() {
        Some((d[at] * 256 + d[at + 1]) as nat)
    } else {
        None
    }
}

/// The four-byte number at `at`.
pub open spec fn be32(d: Seq<u8>, at: int) -> Option<nat> {
    if 0 <= at && at + 4 <= d.len() {
        Some((d[at] * 16777216 + d[at + 1] * 65536 + d[at + 2] * 256 + d[at + 3]) as nat)
    } else {
        None
    }
}

fn read16(d: &[u8], at: u64) -> (r: Option<u64>)
    requires
        at <= 0x7fff_ffff_ffff_ffff,
    ensures
        match r {
            Some(n) => be16(d@, at as int) == Some(n as nat) && n < 65536,
            None => be16(d@, at as int) is None,
        },
{
    if at + 2 > d.len() as u64 {
        return None;
    }
    let i: usize = at as usize;
    Some(d[i] as u64 * 256 + d[i + 1] as u64)
}

fn read32(d: &[u8], at: u64) -> (r: Option<u64>)
    requires
        at <= 0x7fff_ffff_ffff_ffff,
    ensures
        match r {
            Some(n) => be32(d@, at as int) == Some(n as nat) && n < 0x1_0000_0000,
            None => be32(d@, at as int) is None,
        },
{
    if at + 4 > d.len() as u64 {
        return None;
    }
    let i: usize = at as usize;
    Some(
        d[i] as u64 * 16777216 + d[i + 1] as u64 * 65536 + d[i + 2] as u64 * 256 + d[i + 3] as u64,
    )
}

// ---------------------------------------------------------------------
// faces
// ---------------------------------------------------------------------

/// Whether a table directory starts at `at`: its first number is one of the
/// three that a font starts with.
pub open spec fn is_font(d: Seq<u8>, at: int) -> bool {
    be32(d, at) == Some(0x10000nat) || be32(d, at) == Some(0x4f54544fnat) || be32(d, at) == Some(
        0x74727565nat,
    )
}

/// Whether the file is a collection of faces.
pub open spec fn is_collection(d: Seq<u8>) -> bool {
    be32(d, 0) == Some(0x74746366nat)
}

/// How many faces a file says it holds; none for what is no font file.
pub open spec fn faces_in(d: Seq<u8>) -> Option<nat> {
    if is_collection(d) {
        match be32(d, 8) {
            Some(n) => Some(n),
            None => Some(0),
        }
    } else if is_font(d, 0) {
        Some(1)
    } else {
        None
    }
}

/// Where a face's table directory starts.
pub open spec fn face_offset(d: Seq<u8>, index: nat) -> Option<nat> {
    match faces_in(d) {
        Some(n) => if index >= n {
            None
        } else if is_font(d, 0) {
            Some(0)
        } else {
            be32(d, 12 + 4 * (index as int))
        },
        None => None,
    }
}

/// Whether a face is there.
pub open spec fn face_opens(d: Seq<u8>, index: nat) -> bool {
    match face_offset(d, index) {
        Some(at) => is_font(d, at as int),
        None => false,
    }
}

/// Calls `swash::FontDataRef::new` and its `len`: what is neither a font nor
/// a collection by its first four bytes is refused, a font is one face, and
/// a collection holds as many as the number at its third word says.
#[verifier::external_body]
fn count_faces(data: &[u8]) -> (r: Option<usize>)
    ensures
        match r {
            Some(n) => faces_in(data@) == Some(n as nat),
            None => faces_in(data@) is None,
        },
{
    swash::FontDataRef::new(data).map(|d| d.len())
}

/// Calls `swash::FontRef::from_index`, which finds a face exactly where the
/// file holds one of that index and a table directory starts at its offset.
#[verifier::external_body]
fn open_face(data: &[u8], index: usize) -> (r: bool)
    requires
        index <= u32::MAX,
        12 + 4 * index <= usize::MAX,
    ensures
        r == face_opens(data@, index as nat),
{
    swash::FontRef::from_index(data, index).is_some()
}

// ---------------------------------------------------------------------
// tables
// ---------------------------------------------------------------------

/// A number, or zero where the bytes end before it.
pub open spec fn or_zero(n: Option<nat>) -> nat {
    match n {
        Some(v) => v,
        None => 0,
    }
}

/// What is asked of a face.
#[derive(Debug, Clone, Copy, PartialEq, Eq, Structural)]
pub enum Asked {
    /// Its attributes and its metrics.
    Attributes,
    /// Its string under an identifier.
    Name(u16),
    /// Its glyphs for characters.
    Glyphs,
}

/// Whether record `i` of a name table is whole and has that identifier.
pub open spec fn name_under(t: Seq<u8>, i: int, id: u16) -> bool {
    6 + 12 * i + 12 <= t.len() && be16(t, 6 + 12 * i + 6) == Some(id as nat)
}

/// Whether the text of record `i` of a name table can be decoded: one in the
/// one-byte encoding has to be inside the table.
pub open spec fn text_decodes(t: Seq<u8>, i: int) -> bool {
    let at = 6 + 12 * i;
    be16(t, at) == Some(1nat) && be16(t, at + 2) == Some(0nat) ==> or_zero(be16(t, 4)) + or_zero(
        be16(t, at + 10),
    ) + or_zero(be16(t, at + 8)) <= t.len()
}

/// Whether a name table holds a string under an identifier that is free of
/// any language.
pub open spec fn plain_name(t: Seq<u8>, id: u16) -> bool {
    exists|i: int|
        0 <= i < or_zero(be16(t, 2)) && #[trigger] name_under(t, i, id) && be16(t, 6 + 12 * i)
            == Some(0nat)
}

/// Whether a name table can be searched for an identifier and the string
/// that is found decoded. The first string free of any language is taken;
/// where there is none, all records are looked at, none of which may start
/// behind the table, and the first under the identifier is taken.
pub open spec fn names_read(t: Seq<u8>, id: u16) -> bool {
    plain_name(t, id) || {
        &&& or_zero(be16(t, 2)) > 0 ==> 6 + 12 * (or_zero(be16(t, 2)) - 1) <= t.len()
        &&& forall|i: int|
            0 <= i < or_zero(be16(t, 2)) && #[trigger] name_under(t, i, id) && (forall|k: int|
                0 <= k < i ==> !name_under(t, k, id)) ==> text_decodes(t, i)
    }
}

/// The last code point there is.
pub const LAST_CHAR: u64 = 0x10ffff;

/// Whether the glyph of every character of a group of a character map is a
/// number of four bytes.
pub open spec fn group_reads(d: Seq<u8>, at: int) -> bool {
    let start = or_zero(be32(d, at));
    let end = or_zero(be32(d, at + 4));
    let last = if end < LAST_CHAR {
        end as int
    } else {
        LAST_CHAR as int
    };
    start <= last ==> last - start + or_zero(be32(d, at + 8)) <= u32::MAX
}

/// Whether the groups of a character map at `at` can be searched: its head
/// is inside the file and the size of the groups can be counted; where they
/// are inside the file too, each of them can be read.
pub open spec fn groups_read(d: Seq<u8>, at: int) -> bool {
    let n = or_zero(be32(d, at + 12));
    &&& at + 16 <= d.len()
    &&& 12 * n <= usize::MAX
    &&& at + 16 + 12 * n <= d.len() ==> forall|i: int|
        0 <= i < n ==> #[trigger] group_reads(d, at + 16 + 12 * i)
}

/// Whether a character map for that platform and encoding is of use: it maps
/// from code points or from symbols.
pub open spec fn of_use(platform: nat, encoding: nat) -> bool {
    platform == 0 || platform == 3 && (encoding == 0 || encoding == 1 || encoding == 10)
}

/// Whether the character map in record `i` of the table at `start` can be
/// searched. Only one that is made of groups can fail to be.
pub open spec fn mapping_reads(d: Seq<u8>, start: nat, i: int) -> bool {
    let r = start + 4 + 8 * i;
    match (be16(d, r), be16(d, r + 2), be32(d, r + 4)) {
        (Some(platform), Some(encoding), Some(offset)) => of_use(platform, encoding) && start
            + offset <= u32::MAX && or_zero(be16(d, (start + offset) as int)) % 256 == 12
            ==> groups_read(d, (start + offset) as int),
        _ => true,
    }
}

/// Whether a table can be read for what is asked: the string that is looked
/// for is inside the name table, a descent has an opposite, and the
/// character maps can be searched.
pub open spec fn table_reads(d: Seq<u8>, tag: nat, start: nat, len: nat, asked: Asked) -> bool {
    match asked {
        Asked::Attributes => if tag == 0x4f532f32 {
            be16(d, start as int + 70) != Some(0x8000nat)
        } else if tag == 0x68686561 || tag == 0x76686561 {
            be16(d, start as int + 6) != Some(0x8000nat)
        } else {
            true
        },
        Asked::Name(id) => tag == 0x6e616d65 && start + len <= d.len() ==> names_read(
            d.subrange(start as int, (start + len) as int),
            id,
        ),
        Asked::Glyphs => tag == 0x636d6170 && start > 0 && start + len <= u32::MAX ==> forall|i: int|
            0 <= i < or_zero(be16(d, start as int + 2)) ==> #[trigger] mapping_reads(d, start, i),
    }
}

/// Whether the table in record `k` of the directory at `at` can be read for
/// what is asked.
pub open spec fn record_reads(d: Seq<u8>, at: nat, k: int, asked: Asked) -> bool {
    let r = at + 12 + 16 * k;
    match (be32(d, r), be32(d, r + 8), be32(d, r + 12)) {
        (Some(tag), Some(start), Some(len)) => table_reads(d, tag, start, len, asked),
        _ => true,
    }
}

/// Whether a face is there and each of its tables can be read for what is
/// asked.
pub open spec fn face_reads(d: Seq<u8>, index: nat, asked: Asked) -> bool {
    match face_offset(d, index) {
        Some(at) => is_font(d, at as int) && forall|k: int|
            0 <= k < or_zero(be16(d, at as int + 4)) ==> #[trigger] record_reads(d, at, k, asked),
        None => false,
    }
}

fn number16(d: &[u8], at: u64) -> (r: u64)
    requires
        at <= 0x7fff_ffff_ffff_ffff,
    ensures
        r == or_zero(be16(d@, at as int)),
        r < 65536,
{
    match read16(d, at) {
        Some(n) => n,
        None => 0,
    }
}

fn number32(d: &[u8], at: u64) -> (r: u64)
    requires
        at <= 0x7fff_ffff_ffff_ffff,
    ensures
        r == or_zero(be32(d@, at as int)),
        r < 0x1_0000_0000,
{
    match read32(d, at) {
        Some(n) => n,
        None => 0,
    }
}

fn check_names(d: &[u8], start: usize, end: usize, id: u16) -> (r: bool)
    requires
        start <= end <= d.len(),
    ensures
        r == names_read(d@.subrange(start as int, end as int), id),
{
    let t = vstd::slice::slice_subrange(d, start, end);
    let n = number16(t, 2);
    let storage = number16(t, 4);
    let size: u64 = t.len() as u64;
    let mut first: Option<u64> = None;
    let mut i: u64 = 0;
    while i < n && 6 + 12 * i + 12 <= size
        invariant
            i <= n,
            n < 65536,
            size == t@.len(),
            t@ == d@.subrange(start as int, end as int),
            n == or_zero(be16(t@, 2)),
            forall|k: int| 0 <= k < i && #[trigger] name_under(t@, k, id) ==> be16(t@, 6 + 12 * k)
                != Some(0nat),
            match first {
                Some(f) => f < i && name_under(t@, f as int, id) && forall|k: int|
                    0 <= k < f ==> !name_under(t@, k, id),
                None => forall|k: int| 0 <= k < i ==> !name_under(t@, k, id),
            },
        decreases n - i,
    {
        let at: u64 = 6 + 12 * i;
        if number16(t, at + 6) == id as u64 {
            assert(name_under(t@, i as int, id));
            if number16(t, at) == 0 {
                assert(plain_name(t@, id));
                return true;
            }
            if first.is_none() {
                first = Some(i);
            }
        } else {
            assert(!name_under(t@, i as int, id));
        }
        i += 1;
    }
    assert(forall|k: int| i <= k < n ==> !name_under(t@, k, id));
    assert(!plain_name(t@, id));
    if n > 0 && 6 + 12 * (n - 1) > size {
        return false;
    }
    match first {
        Some(f) => {
            let at: u64 = 6 + 12 * f;
            let roman = number16(t, at) == 1 && number16(t, at + 2) == 0;
            let inside = storage + number16(t, at + 10) + number16(t, at + 8) <= size;
            assert((!roman || inside) == text_decodes(t@, f as int));
            !roman || inside
        },
        None => true,
    }
}

fn check_group(d: &[u8], at: u64) -> (r: bool)
    requires
        at <= 0xffff_ffff_ffff,
    ensures
        r == group_reads(d@, at as int),
{
    let start = number32(d, at);
    let end = number32(d, at + 4);
    let last: u64 = if end < LAST_CHAR {
        end
    } else {
        LAST_CHAR
    };
    start > last || last - start + number32(d, at + 8) <= u32::MAX as u64
}

fn check_groups(d: &[u8], at: u64) -> (r: bool)
    requires
        at <= u32::MAX,
    ensures
        r == groups_read(d@, at as int),
{
    let size: u64 = d.len() as u64;
    let n = number32(d, at + 12);
    if at + 16 > size || 12 * n > usize::MAX as u64 {
        return false;
    }
    if at + 16 + 12 * n > size {
        return true;
    }
    let mut i: u64 = 0;
    while i < n
        invariant
            i <= n,
            n < 0x1_0000_0000,
            at <= u32::MAX,
            n == or_zero(be32(d@, at + 12)),
            at + 16 + 12 * n <= d@.len(),
            forall|k: int| 0 <= k < i ==> #[trigger] group_reads(d@, at + 16 + 12 * k),
        decreases n - i,
    {
        if !check_group(d, at + 16 + 12 * i) {
            assert(!group_reads(d@, at + 16 + 12 * (i as int)));
            return false;
        }
        i += 1;
    }
    true
}

fn check_mappings(d: &[u8], start: u64) -> (r: bool)
    requires
        start <= u32::MAX,
    ensures
        r == forall|i: int|
            0 <= i < or_zero(be16(d@, start as int + 2)) ==> #[trigger] mapping_reads(
                d@,
                start as nat,
                i,
            ),
{
    let n = number16(d, start + 2);
    let mut i: u64 = 0;
    while i < n
        invariant
            i <= n,
            n < 65536,
            start <= u32::MAX,
            n == or_zero(be16(d@, start as int + 2)),
            forall|k: int| 0 <= k < i ==> #[trigger] mapping_reads(d@, start as nat, k),
        decreases n - i,
    {
        let r: u64 = start + 4 + 8 * i;
        let ok = match (read16(d, r), read16(d, r + 2), read32(d, r + 4)) {
            (Some(platform), Some(encoding), Some(offset)) => {
                let used = platform == 0 || platform == 3 && (encoding == 0 || encoding == 1
                    || encoding == 10);
                !used || start + offset > u32::MAX as u64 || number16(d, start + offset) % 256 != 12
                    || check_groups(d, start + offset)
            },
            _ => true,
        };
        assert(ok == mapping_reads(d@, start as nat, i as int));
        if !ok {
            return false;
        }
        i += 1;
    }
    true
}

fn check_table(d: &[u8], tag: u64, start: u64, len: u64, asked: Asked) -> (r: bool)
    requires
        start < 0x1_0000_0000,
        len < 0x1_0000_0000,
    ensures
        r == table_reads(d@, tag as nat, start as nat, len as nat, asked),
{
    match asked {
        Asked::Attributes => if tag == 0x4f532f32 {
            match read16(d, start + 70) {
                Some(n) => n != 0x8000,
                None => true,
            }
        } else if tag == 0x68686561 || tag == 0x76686561 {
            match read16(d, start + 6) {
                Some(n) => n != 0x8000,
                None => true,
            }
        } else {
            true
        },
        Asked::Name(id) => if tag == 0x6e616d65 && start + len <= d.len() as u64 {
            check_names(d, start as usize, (start + len) as usize, id)
        } else {
            true
        },
        Asked::Glyphs => if tag == 0x636d6170 && start > 0 && start + len <= u32::MAX as u64 {
            check_mappings(d, start)
        } else {
            true
        },
    }
}

/// Where a face's table directory starts.
fn offset_of_face(d: &[u8], index: usize) -> (r: Option<u64>)
    requires
        index <= u32::MAX,
        12 + 4 * index <= usize::MAX,
        face_opens(d@, index as nat),
    ensures
        r matches Some(at) && face_offset(d@, index as nat) == Some(at as nat) && at < 0x1_0000_0000,
{
    match read32(d, 0) {
        Some(0x10000) | Some(0x4f54544f) | Some(0x74727565) => Some(0),
        _ => read32(d, 12 + 4 * index as u64),
    }
}

/// Whether a face is there and each of its tables can be read for what is
/// asked.
pub fn face_is_readable(d: &[u8], index: usize, asked: Asked) -> (r: bool)
    requires
        index <= u32::MAX,
        12 + 4 * index <= usize::MAX,
    ensures
        r == face_reads(d@, index as nat, asked),
{
    if !open_face(d, index) {
        return false;
    }
    let at = match offset_of_face(d, index) {
        Some(at) => at,
        None => {
            return false;
        },
    };
    let n = number16(d, at + 4);
    let mut k: u64 = 0;
    while k < n
        invariant
            k <= n,
            n < 65536,
            at < 0x1_0000_0000,
            face_opens(d@, index as nat),
            face_offset(d@, index as nat) == Some(at as nat),
            n == or_zero(be16(d@, at as int + 4)),
            forall|j: int| 0 <= j < k ==> #[trigger] record_reads(d@, at as nat, j, asked),
        decreases n - k,
    {
        let rec: u64 = at + 12 + 16 * k;
        let ok = match (read32(d, rec), read32(d, rec + 8), read32(d, rec + 12)) {
            (Some(tag), Some(start), Some(len)) => check_table(d, tag, start, len, asked),
            _ => true,
        };
        assert(ok == record_reads(d@, at as nat, k as int, asked));
        if !ok {
            return false;
        }
        k += 1;
    }
    true
}

// ---------------------------------------------------------------------
// what the font reader says
// ---------------------------------------------------------------------

/// How a face leans.
#[derive(Debug, Clone, Copy, PartialEq, Eq, Structural)]
pub enum Slant {
    /// Not at all.
    Upright,
    /// Drawn to lean.
    Italic,
    /// Leaned by machine.
    Oblique,
}

/// The string of a face under a raw identifier, in the language that is
/// preferred where none is asked for.
pub uninterp spec fn font_string(data: Seq<u8>, index: nat, id: u16) -> Option<Seq<char>>;

/// The stretch, weight and slant of a face.
pub uninterp spec fn font_attributes(data: Seq<u8>, index: nat) -> (u16, u16, Slant);

/// Whether every glyph of a face is equally wide, as the face says.
pub uninterp spec fn font_fixed_pitch(data: Seq<u8>, index: nat) -> bool;

/// The glyph of a face for a character; zero where it has none.
pub uninterp spec fn font_glyph(data: Seq<u8>, index: nat, c: char) -> u16;

/// Calls `swash::StringId::from_raw`, `LocalizedStrings::find_by_id` without
/// a language, and collects the string's `chars`. The string depends on the
/// file, the face and the identifier alone. A table that the search cannot
/// go through, and a text in the one-byte encoding that lies outside its
/// table, are left out.
#[verifier::external_body]
pub(crate) fn string_of_face(data: &[u8], index: usize, id: u16) -> (r: Option<String>)
    requires
        index <= u32::MAX,
        12 + 4 * index <= usize::MAX,
        face_reads(data@, index as nat, Asked::Name(id)),
    ensures
        text_view(r) == font_string(data@, index as nat, id),
{
    let font = swash::FontRef::from_index(data, index)?;
    let found = font.localized_strings().find_by_id(swash::StringId::from_raw(id), None)?;
    Some(found.chars().collect())
}

/// Calls `swash::FontRef::attributes` and its `parts`: the stretch as its
/// raw value, the weight, and the style by its variant. They depend on the
/// file and the face alone.
#[verifier::external_body]
pub(crate) fn attributes_of_face(data: &[u8], index: usize) -> (r: Option<(u16, u16, Slant)>)
    requires
        index <= u32::MAX,
        12 + 4 * index <= usize::MAX,
        face_reads(data@, index as nat, Asked::Attributes),
    ensures
        r == Some(font_attributes(data@, index as nat)),
{
    let (stretch, weight, style) = swash::FontRef::from_index(data, index)?.attributes().parts();
    let slant = match style {
        swash::Style::Normal => Slant::Upright,
        swash::Style::Italic => Slant::Italic,
        swash::Style::Oblique(_) => Slant::Oblique,
    };
    Some((stretch.raw(), weight.0, slant))
}

/// Calls `swash::FontRef::metrics` without variation coordinates and takes
/// its `is_monospace`, which depends on the file and the face alone.
#[verifier::external_body]
pub(crate) fn fixed_pitch_of_face(data: &[u8], index: usize) -> (r: Option<bool>)
    requires
        index <= u32::MAX,
        12 + 4 * index <= usize::MAX,
        face_reads(data@, index as nat, Asked::Attributes),
    ensures
        r == Some(font_fixed_pitch(data@, index as nat)),
{
    Some(swash::FontRef::from_index(data, index)?.metrics(&[]).is_monospace)
}

/// Calls `swash::FontRef::charmap` and its `map`, whose result depends on
/// the file, the face and the character alone. A character map made of
/// groups whose head the file cuts short, or with a group that runs past the
/// last number of four bytes, is left out.
#[verifier::external_body]
pub(crate) fn glyph_of_char(data: &[u8], index: usize, c: char) -> (r: Option<u16>)
    requires
        index <= u32::MAX,
        12 + 4 * index <= usize::MAX,
        face_reads(data@, index as nat, Asked::Glyphs),
    ensures
        r == Some(font_glyph(data@, index as nat, c)),
{
    Some(swash::FontRef::from_index(data, index)?.charmap().map(c))
}

/// How many faces a file holds; none for what is no font file.
pub fn face_count(data: &[u8]) -> (r: Option<usize>)
    ensures
        match r {
            Some(n) => faces_in(data@) == Some(n as nat),
            None => faces_in(data@) is None,
        },
{
    count_faces(data)
}

} // verus!
