//! Screenshots of one window: the server pictures the whole output, and the
//! window is cut out of it here.

use vstd::prelude::*;

use crate::chars::{chars_of, owned, parse_dec, parse_decimal, string_of, trim, trimmed};
use crate::introspect::request::{decode_lossy, lossy_text};
use crate::introspect::sockets::{join_path, path_join, resolve_user_dir, str_view, user_dir};
use crate::introspect::text::{chars_view, words, words_of};

verus! {

/// A screenshot: rows of pixels of four bytes.
#[derive(Debug, Clone, PartialEq, Eq)]
pub struct Shot {
    /// Width in pixels.
    pub width: u32,
    /// Height in pixels.
    pub height: u32,
    /// Bytes per row.
    pub stride: u32,
    /// The rows, one after the other.
    pub data: Vec<u8>,
}

// ---------------------------------------------------------------------
// the control socket
// ---------------------------------------------------------------------

/// Where the server's control socket is, given the environment: the
/// override, else `<runtime>/nitro/control.sock` where that is absolute,
/// else `/tmp/nitro-<uid>/control.sock`.
pub fn resolve_control(override_path: Option<&str>, runtime_dir: Option<&str>, uid: u32) -> (out:
    String)
    ensures
        out@ == (match override_path {
            Some(p) => p@,
            None => path_join(user_dir(str_view(runtime_dir), uid as nat), "control.sock"@),
        }),
{
    if let Some(p) = override_path {
        return owned(p);
    }
    let dir = resolve_user_dir(runtime_dir, uid);
    join_path(dir.as_str(), "control.sock")
}

/// The longest reply line.
pub const MAX_REPLY: usize = 256;

/// What one more byte makes of a reply line.
pub enum LineStep {
    /// The line goes on.
    More,
    /// The line is complete.
    Line(String),
    /// The line is too long.
    TooLong,
}

/// Add one byte to a reply line. The line ends at a line break, which is not
/// part of it.
pub fn line_step(line: &mut Vec<u8>, byte: u8) -> (s: LineStep)
    ensures
        match s {
            LineStep::Line(t) => byte == 10 && t@ == lossy_text(old(line)@) && final(line)@ == old(
                line,
            )@,
            LineStep::More => byte != 10 && old(line)@.len() < MAX_REPLY && final(line)@ == old(
                line,
            )@.push(byte),
            LineStep::TooLong => byte != 10 && old(line)@.len() >= MAX_REPLY && final(line)@ == old(
                line,
            )@.push(byte),
        },
{
    if byte == 10 {
        return LineStep::Line(decode_lossy(line.as_slice()));
    }
    let n: usize = line.len();
    line.push(byte);
    if n >= MAX_REPLY {
        LineStep::TooLong
    } else {
        LineStep::More
    }
}

/// What the reply line to a request for a picture says.
pub enum Header {
    /// A picture of this size follows.
    Image {
        /// Width in pixels.
        width: u32,
        /// Height in pixels.
        height: u32,
        /// Bytes per row.
        stride: u32,
    },
    /// The server refused, in these words.
    Refused(String),
    /// The line makes no sense.
    Bad,
}

/// The numbers of a header; none where one of its words is not one.
pub open spec fn numbers(fields: Seq<Seq<char>>) -> Option<Seq<nat>>
    decreases fields.len(),
{
    if fields.len() == 0 {
        Some(Seq::empty())
    } else {
        match (numbers(fields.drop_last()), parse_dec(fields.last(), u32::MAX as nat)) {
            (Some(before), Some(n)) => Some(before.push(n)),
            _ => None,
        }
    }
}

/// Whether a line says that a picture follows.
pub open spec fn accepted(line: Seq<char>) -> bool {
    "ok "@.is_prefix_of(line)
}

/// Read the reply line to a request for a picture.
pub fn parse_header(line: &str) -> (h: Header)
    ensures
        match h {
            Header::Image { width, height, stride } => accepted(line@) && numbers(
                words(line@.skip(3)),
            ) == Some(seq![width as nat, height as nat, stride as nat]),
            Header::Refused(says) => !accepted(line@) && says@ == trim(line@),
            Header::Bad => accepted(line@) && (match numbers(words(line@.skip(3))) {
                Some(ns) => ns.len() != 3,
                None => true,
            }),
        },
{
    let v = chars_of(line);
    proof {
        reveal_strlit("ok ");
    }
    if v.len() < 3 || v[0] != 'o' || v[1] != 'k' || v[2] != ' ' {
        assert(!accepted(line@)) by {
            if "ok "@.is_prefix_of(line@) {
                let p = line@.subrange(0, 3);
                assert(p[0] == line@[0] && p[1] == line@[1] && p[2] == line@[2]);
            }
        }
        return Header::Refused(string_of(trimmed(v.as_slice()).as_slice()));
    }
    assert("ok "@ =~= line@.subrange(0, 3));
    let rest = crate::chars::slice_of(v.as_slice(), 3, v.len());
    assert(rest@ =~= line@.skip(3));
    let fields = words_of(rest.as_slice());
    let ghost all = words(line@.skip(3));
    let mut ns: Vec<u32> = Vec::new();
    let mut i: usize = 0;
    assert(all.take(0) =~= Seq::<Seq<char>>::empty());
    assert(nats(ns@) =~= Seq::<nat>::empty());
    while i < fields.len()
        invariant
            i <= fields.len(),
            all == words(line@.skip(3)),
            all == chars_view(fields@),
            accepted(line@),
            ns@.len() == i,
            numbers(all.take(i as int)) == Some(nats(ns@)),
        decreases fields.len() - i,
    {
        assert(all.take(i + 1).drop_last() =~= all.take(i as int));
        assert(all[i as int] == fields@[i as int]@);
        match parse_decimal(fields[i].as_slice(), u32::MAX as u64) {
            Some(n) => {
                let ghost before = nats(ns@);
                ns.push(n as u32);
                assert(nats(ns@) =~= before.push(n as nat));
            },
            None => {
                proof {
                    lemma_numbers_stop(all, i + 1);
                }
                return Header::Bad;
            },
        }
        i += 1;
    }
    assert(all.take(i as int) =~= all);
    if ns.len() != 3 {
        return Header::Bad;
    }
    assert(nats(ns@) =~= seq![ns@[0] as nat, ns@[1] as nat, ns@[2] as nat]);
    Header::Image { width: ns[0], height: ns[1], stride: ns[2] }
}

spec fn nats(s: Seq<u32>) -> Seq<nat> {
    s.map_values(|n: u32| n as nat)
}

/// Once a word is not a number, the whole line is not numbers.
proof fn lemma_numbers_stop(fields: Seq<Seq<char>>, n: int)
    requires
        0 <= n <= fields.len(),
        numbers(fields.take(n)) is None,
    ensures
        numbers(fields) is None,
    decreases fields.len() - n,
{
    if n == fields.len() {
        assert(fields.take(n) =~= fields);
    } else {
        assert(fields.take(n + 1).drop_last() =~= fields.take(n));
        lemma_numbers_stop(fields, n + 1);
    }
}

// ---------------------------------------------------------------------
// cropping
// ---------------------------------------------------------------------

/// A number kept between two others.
pub open spec fn clamped(x: int, lo: int, hi: int) -> int {
    if x < lo {
        lo
    } else if x > hi {
        hi
    } else {
        x
    }
}

/// The part of a crop that lies in a picture, on one axis: where it starts
/// and how long it is.
pub open spec fn part(at: int, len: int, whole: int) -> (int, int) {
    let from = clamped(at, 0, whole);
    (from, clamped(at + len, from, whole) - from)
}

/// Whether any of a crop lies in a picture.
pub open spec fn overlaps(img: Shot, x: int, y: int, w: int, h: int) -> bool {
    part(x, w, img.width as int).1 > 0 && part(y, h, img.height as int).1 > 0
}

/// `n` bytes of a picture from a place on; black where the picture is too
/// short for that.
pub open spec fn bytes_at(data: Seq<u8>, from: int, n: int) -> Seq<u8> {
    if from + n <= data.len() {
        data.subrange(from, from + n)
    } else {
        Seq::new(n as nat, |i: int| 0u8)
    }
}

/// The first `rows` rows of a crop `w` pixels wide from `(x, y)` on.
pub open spec fn crop_rows(img: Shot, x: int, y: int, w: int, rows: int) -> Seq<u8>
    decreases rows,
{
    if rows <= 0 {
        Seq::empty()
    } else {
        crop_rows(img, x, y, w, rows - 1) + bytes_at(
            img.data@,
            (y + rows - 1) * img.stride + x * 4,
            w * 4,
        )
    }
}

fn clamp(x: i64, lo: i64, hi: i64) -> (r: i64)
    requires
        lo <= hi,
    ensures
        r == clamped(x as int, lo as int, hi as int),
{
    if x < lo {
        lo
    } else if x > hi {
        hi
    } else {
        x
    }
}

/// Cut `(x, y, w, h)` out of a picture, as far as it lies in it. A crop that
/// lies outside has neither width nor height rather than being an error: a
/// window can be off-screen.
pub fn crop(img: &Shot, x: i64, y: i64, w: i64, h: i64) -> (out: Shot)
    requires
        i64::MIN <= x + w <= i64::MAX,
        i64::MIN <= y + h <= i64::MAX,
        overlaps(*img, x as int, y as int, w as int, h as int) ==> part(
            x as int,
            w as int,
            img.width as int,
        ).1 * 4 <= u32::MAX,
    ensures
        out.stride == out.width * 4,
        if overlaps(*img, x as int, y as int, w as int, h as int) {
            &&& out.width == part(x as int, w as int, img.width as int).1
            &&& out.height == part(y as int, h as int, img.height as int).1
            &&& out.data@ == crop_rows(
                *img,
                part(x as int, w as int, img.width as int).0,
                part(y as int, h as int, img.height as int).0,
                out.width as int,
                out.height as int,
            )
        } else {
            out.width == 0 && out.height == 0 && out.data@.len() == 0
        },
{
    let iw: i64 = img.width as i64;
    let ih: i64 = img.height as i64;
    let x0: i64 = clamp(x, 0, iw);
    let y0: i64 = clamp(y, 0, ih);
    let x1: i64 = clamp(x + w, x0, iw);
    let y1: i64 = clamp(y + h, y0, ih);
    if x1 == x0 || y1 == y0 {
        return Shot { width: 0, height: 0, stride: 0, data: Vec::new() };
    }
    let cw: u32 = (x1 - x0) as u32;
    let ch: u32 = (y1 - y0) as u32;
    let stride: u32 = cw * 4;
    let mut data: Vec<u8> = Vec::new();
    let mut row: u32 = 0;
    while row < ch
        invariant
            row <= ch,
            0 <= x0 <= u32::MAX,
            0 <= y0,
            y0 + ch <= u32::MAX,
            stride == cw * 4,
            data@ == crop_rows(*img, x0 as int, y0 as int, cw as int, row as int),
        decreases ch - row,
    {
        let line: u128 = (y0 as u128) + (row as u128);
        assert(line * img.stride <= 0xffff_ffff * 0xffff_ffff) by (nonlinear_arith)
            requires
                line <= 0xffff_ffff,
                img.stride <= 0xffff_ffff,
        ;
        let from: u128 = line * (img.stride as u128) + (x0 as u128) * 4;
        let end: u128 = from + (stride as u128);
        let ghost before = data@;
        if end <= img.data.len() as u128 {
            let src: usize = from as usize;
            let mut k: usize = src;
            while k < end as usize
                invariant
                    src <= k <= end,
                    end <= img.data@.len(),
                    data@ == before + img.data@.subrange(src as int, k as int),
                decreases end - k,
            {
                data.push(img.data[k]);
                assert(data@ =~= before + img.data@.subrange(src as int, k + 1));
                k += 1;
            }
        } else {
            let mut k: u32 = 0;
            while k < stride
                invariant
                    k <= stride,
                    data@ == before + Seq::new(k as nat, |i: int| 0u8),
                decreases stride - k,
            {
                data.push(0);
                assert(data@ =~= before + Seq::new((k + 1) as nat, |i: int| 0u8));
                k += 1;
            }
        }
        assert(data@ =~= before + bytes_at(
            img.data@,
            (y0 + row) * img.stride + x0 * 4,
            cw * 4,
        ));
        row += 1;
    }
    Shot { width: cw, height: ch, stride, data }
}

/// A picture that holds all its rows.
pub open spec fn whole(img: Shot) -> bool {
    &&& img.data@.len() == img.stride * img.height
    &&& img.width * 4 <= img.stride
}

/// The byte `b` of the pixel at `(x, y)`.
pub open spec fn pixel(img: Shot, x: int, y: int, b: int) -> u8 {
    img.data@[y * img.stride + x * 4 + b]
}

proof fn lemma_crop_len(img: Shot, x: int, y: int, w: int, rows: int)
    requires
        0 <= x,
        0 <= y,
        0 <= w,
        0 <= rows,
    ensures
        crop_rows(img, x, y, w, rows).len() == rows * (w * 4),
    decreases rows,
{
    if rows > 0 {
        lemma_crop_len(img, x, y, w, rows - 1);
        assert((y + rows - 1) * img.stride >= 0) by (nonlinear_arith)
            requires
                0 <= y + rows - 1,
                0 <= img.stride,
        ;
        assert(bytes_at(img.data@, (y + rows - 1) * img.stride + x * 4, w * 4).len() == w * 4);
        assert((rows - 1) * (w * 4) + w * 4 == rows * (w * 4)) by (nonlinear_arith);
    } else {
        assert(0 * (w * 4) == 0);
    }
}

proof fn lemma_crop_row(img: Shot, x: int, y: int, w: int, rows: int, j: int, k: int)
    requires
        0 <= x,
        0 <= y,
        0 <= w,
        0 <= j < rows,
        0 <= k < w * 4,
    ensures
        crop_rows(img, x, y, w, rows)[j * (w * 4) + k] == bytes_at(
            img.data@,
            (y + j) * img.stride + x * 4,
            w * 4,
        )[k],
    decreases rows,
{
    let before = crop_rows(img, x, y, w, rows - 1);
    lemma_crop_len(img, x, y, w, rows - 1);
    lemma_crop_len(img, x, y, w, rows);
    let at = j * (w * 4) + k;
    if j == rows - 1 {
        assert(at == before.len() + k);
    } else {
        lemma_crop_row(img, x, y, w, rows - 1, j, k);
        assert(at < (rows - 1) * (w * 4)) by (nonlinear_arith)
            requires
                at == j * (w * 4) + k,
                k < w * 4,
                0 <= w,
                j + 1 <= rows - 1,
        ;
        assert(0 <= at) by (nonlinear_arith)
            requires
                at == j * (w * 4) + k,
                0 <= w,
                0 <= j,
                0 <= k,
        ;
    }
}

/// A pixel of a crop is the pixel of the picture at the same place: the crop
/// starts where it was asked to, moved into the picture.
pub proof fn a_crop_keeps_its_pixels(img: Shot, out: Shot, x: int, y: int, i: int, j: int, b: int)
    requires
        whole(img),
        out.stride == out.width * 4,
        0 <= x,
        0 <= y,
        x + out.width <= img.width,
        y + out.height <= img.height,
        out.data@ == crop_rows(img, x, y, out.width as int, out.height as int),
        0 <= i < out.width,
        0 <= j < out.height,
        0 <= b < 4,
    ensures
        pixel(out, i, j, b) == pixel(img, x + i, y + j, b),
{
    let w = out.width as int;
    let k = i * 4 + b;
    lemma_crop_row(img, x, y, w, out.height as int, j, k);
    let from = (y + j) * img.stride + x * 4;
    assert(from + w * 4 <= img.stride * img.height) by (nonlinear_arith)
        requires
            from == (y + j) * img.stride + x * 4,
            y + j + 1 <= img.height,
            (x + w) * 4 <= img.stride,
            0 <= img.stride,
    ;
    assert(from >= 0) by (nonlinear_arith)
        requires
            from == (y + j) * img.stride + x * 4,
            0 <= y + j,
            0 <= x,
            0 <= img.stride,
    ;
    assert(from + k == (y + j) * img.stride + (x + i) * 4 + b);
    assert(j * out.stride + i * 4 + b == j * (w * 4) + k);
}

/// The part of a run that is inside the whole: a place is in it exactly where
/// it is in both.
pub proof fn a_part_is_what_is_in_both(at: int, len: int, whole: int, i: int)
    requires
        0 <= whole,
    ensures
        part(at, len, whole).0 <= i < part(at, len, whole).0 + part(at, len, whole).1 <==> at <= i
            < at + len && 0 <= i < whole,
        0 <= part(at, len, whole).0 <= whole,
        0 <= part(at, len, whole).1,
{
}

/// A crop is of the overlap exactly where some pixel is in both.
pub proof fn an_overlap_has_a_pixel(img: Shot, x: int, y: int, w: int, h: int)
    ensures
        overlaps(img, x, y, w, h) <==> exists|i: int, j: int|
            #![trigger in_both(img, x, y, w, h, i, j)]
            in_both(img, x, y, w, h, i, j),
{
    if overlaps(img, x, y, w, h) {
        let i = part(x, w, img.width as int).0;
        let j = part(y, h, img.height as int).0;
        assert(in_both(img, x, y, w, h, i, j));
    }
}

/// Whether a pixel is in the image and in a rectangle.
pub open spec fn in_both(img: Shot, x: int, y: int, w: int, h: int, i: int, j: int) -> bool {
    0 <= i < img.width && 0 <= j < img.height && x <= i < x + w && y <= j < y + h
}

/// Numbers are read one for each field, and any field that is none spoils
/// them all.
pub proof fn every_field_is_a_number(fields: Seq<Seq<char>>, f: Seq<char>)
    ensures
        numbers(Seq::empty()) == Some(Seq::<nat>::empty()),
        numbers(fields.push(f)) is Some <==> numbers(fields) is Some && parse_dec(
            f,
            u32::MAX as nat,
        ) is Some,
        numbers(fields.push(f)) matches Some(ns) ==> ns == numbers(fields)->0.push(
            parse_dec(f, u32::MAX as nat)->0,
        ),
{
    assert(fields.push(f).drop_last() =~= fields);
}

/// The server accepts a shot by a line that starts with a word for it.
pub proof fn a_line_accepts_by_its_first_word(line: Seq<char>)
    ensures
        accepted(line) <==> line.len() >= 3 && line[0] == 'o' && line[1] == 'k' && line[2] == ' ',
{
    reveal_strlit("ok ");
    let word = "ok "@;
    assert(word.len() == 3 && word[0] == 'o' && word[1] == 'k' && word[2] == ' ');
    if line.len() >= 3 {
        let head = line.subrange(0, 3);
        assert(head[0] == line[0] && head[1] == line[1] && head[2] == line[2]);
        if line[0] == 'o' && line[1] == 'k' && line[2] == ' ' {
            assert(word =~= head);
        }
    }
}

} // verus!
