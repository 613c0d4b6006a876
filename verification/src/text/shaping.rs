//! What shaping needs around the shaper: logical lines, tabs, runs of one
//! font, and cursor positions.

use std::ops::Range;

use vstd::prelude::*;
use vstd::utf8::*;

use crate::chars::{chars_of, is_space, space};
use crate::text::db::{FaceData, FontId};
use crate::text::sfnt::{face_is_readable, face_reads, font_glyph, glyph_of_char, Asked};

verus! {

/// Tab stop, in spaces. Tabs are expanded before shaping.
pub const TAB_SPACES: usize = 4;

// ---------------------------------------------------------------------
// logical lines
// ---------------------------------------------------------------------

/// Where a line that a line break at `i` ends does end: a carriage return
/// in front of the break belongs to it.
pub open spec fn line_stop(b: Seq<u8>, i: int) -> int {
    if i > 0 && b[i - 1] == 13 {
        i - 1
    } else {
        i
    }
}

/// The byte ranges of the lines that end at `i` or later, the first of
/// which starts at `start`.
pub open spec fn lines_from(b: Seq<u8>, start: int, i: int) -> Seq<(int, int)>
    decreases b.len() - i,
{
    if i >= b.len() {
        seq![(start, b.len() as int)]
    } else if b[i] == 10 {
        seq![(start, line_stop(b, i))] + lines_from(b, i + 1, i + 1)
    } else {
        lines_from(b, start, i + 1)
    }
}

/// How many line breaks are at `i` or later.
pub open spec fn breaks_from(b: Seq<u8>, i: int) -> nat
    decreases b.len() - i,
{
    if i >= b.len() {
        0
    } else {
        breaks_from(b, i + 1) + if b[i] == 10 {
            1nat
        } else {
            0
        }
    }
}

/// Ranges as pairs.
pub open spec fn pairs(s: Seq<Range<usize>>) -> Seq<(int, int)> {
    s.map_values(|r: Range<usize>| (r.start as int, r.end as int))
}

/// There is one line more than there are line breaks, so that a line break
/// at the very end makes an empty last line; and no line holds one.
pub proof fn one_line_more_than_breaks(b: Seq<u8>)
    ensures
        lines_from(b, 0, 0).len() == breaks_from(b, 0) + 1,
        forall|k: int, j: int|
            0 <= k < lines_from(b, 0, 0).len() && (#[trigger] lines_from(b, 0, 0)[k]).0 <= j
                < lines_from(b, 0, 0)[k].1 ==> #[trigger] b[j] != 10,
        forall|k: int|
            0 <= k < lines_from(b, 0, 0).len() ==> 0 <= (#[trigger] lines_from(b, 0, 0)[k]).0
                <= lines_from(b, 0, 0)[k].1 <= b.len(),
{
    lemma_lines(b, 0, 0);
}

proof fn lemma_lines(b: Seq<u8>, start: int, i: int)
    requires
        0 <= start <= i <= b.len(),
        start == 0 || b[start - 1] == 10,
        forall|j: int| start <= j < i ==> b[j] != 10,
    ensures
        lines_from(b, start, i).len() == breaks_from(b, i) + 1,
        forall|k: int, j: int|
            0 <= k < lines_from(b, start, i).len() && (#[trigger] lines_from(b, start, i)[k]).0 <= j
                < lines_from(b, start, i)[k].1 ==> #[trigger] b[j] != 10,
        forall|k: int|
            0 <= k < lines_from(b, start, i).len() ==> 0 <= (#[trigger] lines_from(b, start, i)[k]).0
                <= lines_from(b, start, i)[k].1 <= b.len(),
    decreases b.len() - i,
{
    if i < b.len() {
        if b[i] == 10 {
            lemma_lines(b, i + 1, i + 1);
            let rest = lines_from(b, i + 1, i + 1);
            let all = lines_from(b, start, i);
            assert forall|k: int, j: int|
                0 <= k < all.len() && (#[trigger] all[k]).0 <= j < all[k].1 implies #[trigger] b[j]
                != 10 by {
                if k > 0 {
                    assert(all[k] == rest[k - 1]);
                }
            }
            assert forall|k: int| 0 <= k < all.len() implies 0 <= (#[trigger] all[k]).0 <= all[k].1
                <= b.len() by {
                if k > 0 {
                    assert(all[k] == rest[k - 1]);
                }
            }
        } else {
            lemma_lines(b, start, i + 1);
        }
    }
}

/// Byte ranges of the logical lines, splitting on `\n` and `\r\n`.
pub fn split_logical_lines(text: &str) -> (out: Vec<Range<usize>>)
    ensures
        pairs(out@) == lines_from(encode_utf8(text@), 0, 0),
{
    let bytes = text.as_bytes();
    let n: usize = bytes.len();
    let ghost b = bytes@;
    let mut out: Vec<Range<usize>> = Vec::new();
    let mut start: usize = 0;
    let mut i: usize = 0;
    assert(pairs(out@) + lines_from(b, 0, 0) =~= lines_from(b, 0, 0));
    while i < n
        invariant
            i <= n,
            start <= i,
            b == bytes@,
            n == b.len(),
            pairs(out@) + lines_from(b, start as int, i as int) == lines_from(b, 0, 0),
        decreases n - i,
    {
        if bytes[i] == 10 {
            let end: usize = if i > 0 && bytes[i - 1] == 13 {
                i - 1
            } else {
                i
            };
            let ghost before = pairs(out@);
            let r = Range { start, end };
            out.push(r);
            proof {
                assert(pairs(out@) =~= before.push((start as int, end as int)));
                assert(pairs(out@) + lines_from(b, i + 1, i + 1) =~= before + lines_from(
                    b,
                    start as int,
                    i as int,
                ));
            }
            start = i + 1;
        }
        i += 1;
    }
    let ghost before = pairs(out@);
    let r = Range { start, end: n };
    out.push(r);
    proof {
        assert(pairs(out@) =~= before.push((start as int, n as int)));
        assert(pairs(out@) =~= before + lines_from(b, start as int, n as int));
    }
    out
}

// ---------------------------------------------------------------------
// tabs
// ---------------------------------------------------------------------

/// How many bytes a character takes.
pub open spec fn width(c: char) -> nat {
    encode_scalar(c as u32).len()
}

/// How many bytes a character takes.
pub fn width_of(c: char) -> (n: usize)
    ensures
        n == width(c),
        1 <= n <= 4,
{
    let v: u32 = c as u32;
    if v < 0x80 {
        1
    } else if v < 0x800 {
        2
    } else if v < 0x10000 {
        3
    } else {
        4
    }
}

/// `n` times `x`.
pub open spec fn times<T>(x: T, n: nat) -> Seq<T> {
    Seq::new(n, |i: int| x)
}

/// A line with its tabs made spaces.
pub open spec fn expanded(s: Seq<char>) -> Seq<char>
    decreases s.len(),
{
    if s.len() == 0 {
        Seq::empty()
    } else {
        (if s[0] == '\t' {
            times(' ', TAB_SPACES as nat)
        } else {
            seq![s[0]]
        }) + expanded(s.drop_first())
    }
}

/// Where each byte of the expanded line came from, if the line starts at
/// `at`, and where it ends.
pub open spec fn origins(s: Seq<char>, at: int) -> Seq<u32>
    decreases s.len(),
{
    if s.len() == 0 {
        seq![at as u32]
    } else {
        times(
            at as u32,
            if s[0] == '\t' {
                TAB_SPACES as nat
            } else {
                width(s[0])
            },
        ) + origins(s.drop_first(), at + width(s[0]))
    }
}

proof fn lemma_size(s: Seq<char>)
    ensures
        s.len() > 0 ==> encode_utf8(s).len() == width(s[0]) + encode_utf8(s.drop_first()).len(),
        s.len() <= encode_utf8(s).len(),
    decreases s.len(),
{
    if s.len() > 0 {
        lemma_size(s.drop_first());
    }
}

/// There is an origin for each byte of the expanded line and one for its
/// end, and all of them are in the line that was expanded.
pub proof fn every_byte_has_an_origin(s: Seq<char>, at: int)
    requires
        0 <= at,
        at + encode_utf8(s).len() <= u32::MAX,
    ensures
        origins(s, at).len() == encode_utf8(expanded(s)).len() + 1,
        forall|i: int|
            0 <= i < origins(s, at).len() ==> at <= #[trigger] origins(s, at)[i] <= at
                + encode_utf8(s).len(),
        origins(s, at).last() == at + encode_utf8(s).len(),
    decreases s.len(),
{
    if s.len() == 0 {
        assert(encode_utf8(expanded(s)).len() == 0);
    } else {
        lemma_size(s);
        let rest = s.drop_first();
        every_byte_has_an_origin(rest, at + width(s[0]));
        let tail = origins(rest, at + width(s[0]));
        let all = origins(s, at);
        let head = if s[0] == '\t' {
            times(' ', TAB_SPACES as nat)
        } else {
            seq![s[0]]
        };
        lemma_encode_add(head, expanded(rest));
        assert(encode_utf8(head).len() == (if s[0] == '\t' {
            TAB_SPACES as nat
        } else {
            width(s[0])
        })) by {
            if s[0] == '\t' {
                lemma_spaces(TAB_SPACES as nat);
            } else {
                lemma_size(head);
                assert(head.drop_first() =~= Seq::<char>::empty());
            }
        }
        assert forall|i: int| 0 <= i < all.len() implies at <= #[trigger] all[i] <= at
            + encode_utf8(s).len() by {
            let n = all.len() - tail.len();
            if i >= n {
                assert(all[i] == tail[i - n]);
            }
        }
        assert(all.last() == tail.last());
    }
}

proof fn lemma_spaces(n: nat)
    ensures
        encode_utf8(times(' ', n)).len() == n,
    decreases n,
{
    let s = times(' ', n);
    if n > 0 {
        lemma_spaces((n - 1) as nat);
        assert(s.drop_first() =~= times(' ', (n - 1) as nat));
        lemma_size(s);
    }
}

proof fn lemma_encode_add(a: Seq<char>, b: Seq<char>)
    ensures
        encode_utf8(a + b).len() == encode_utf8(a).len() + encode_utf8(b).len(),
    decreases a.len(),
{
    if a.len() == 0 {
        assert(a + b =~= b);
    } else {
        assert((a + b).drop_first() =~= a.drop_first() + b);
        lemma_encode_add(a.drop_first(), b);
        lemma_size(a + b);
        lemma_size(a);
    }
}

/// Expand tabs to [`TAB_SPACES`] spaces.
///
/// Gives the line to display, and for every byte of it, and for its end, a
/// byte offset in the text that the line starts at `base` of.
pub fn expand_tabs(line: &str, base: u32) -> (r: (String, Vec<u32>))
    requires
        base + encode_utf8(line@).len() <= u32::MAX,
    ensures
        r.0@ == expanded(line@),
        r.1@ == origins(line@, base as int),
{
    let v = chars_of(line);
    let mut disp = String::new();
    let mut map: Vec<u32> = Vec::new();
    let mut at: u32 = base;
    let mut i: usize = 0;
    assert(v@.skip(0) =~= v@);
    assert(disp@ + expanded(v@) =~= expanded(v@));
    assert(map@ + origins(v@, base as int) =~= origins(v@, base as int));
    while i < v.len()
        invariant
            i <= v.len(),
            v@ == line@,
            at + encode_utf8(v@.skip(i as int)).len() <= u32::MAX,
            disp@ + expanded(v@.skip(i as int)) == expanded(v@),
            map@ + origins(v@.skip(i as int), at as int) == origins(v@, base as int),
        decreases v.len() - i,
    {
        let c = v[i];
        let ghost rest = v@.skip(i as int);
        let ghost before = map@;
        let ghost shown = disp@;
        proof {
            assert(rest[0] == c);
            assert(rest.drop_first() =~= v@.skip(i + 1));
            lemma_size(rest);
        }
        let n: usize = if c == '\t' {
            TAB_SPACES
        } else {
            width_of(c)
        };
        if c == '\t' {
            let mut k: usize = 0;
            while k < TAB_SPACES
                invariant
                    k <= TAB_SPACES,
                    disp@ == shown + times(' ', k as nat),
                decreases TAB_SPACES - k,
            {
                disp.push(' ');
                assert(times(' ', (k + 1) as nat) =~= times(' ', k as nat).push(' '));
                assert(disp@ =~= shown + times(' ', (k + 1) as nat));
                k += 1;
            }
        } else {
            disp.push(c);
        }
        let mut k: usize = 0;
        while k < n
            invariant
                k <= n,
                map@ == before + times(at, k as nat),
            decreases n - k,
        {
            map.push(at);
            assert(times(at, (k + 1) as nat) =~= times(at, k as nat).push(at));
            assert(map@ =~= before + times(at, (k + 1) as nat));
            k += 1;
        }
        proof {
            let tail = v@.skip(i + 1);
            assert(disp@ + expanded(tail) =~= shown + expanded(rest));
            assert(map@ + origins(tail, at + width(c)) =~= before + origins(rest, at as int));
        }
        at = at + width_of(c) as u32;
        i += 1;
    }
    proof {
        assert(v@.skip(i as int) =~= Seq::<char>::empty());
        assert(disp@ =~= expanded(v@));
        assert(map@.push(at) =~= origins(v@, base as int));
    }
    map.push(at);
    (disp, map)
}

// ---------------------------------------------------------------------
// runs of one font
// ---------------------------------------------------------------------

/// Whether a font of a fallback chain has a glyph for a character.
#[derive(Debug, Clone, Copy, PartialEq, Eq, Structural)]
pub enum Has {
    /// The font's file was not read yet.
    Unread,
    /// The font cannot be read.
    Gone,
    /// It has none.
    No,
    /// It has one.
    Yes,
}

/// Whether the font `current` keeps a character: the first readable font
/// of that id has a glyph for it. `Err` names a font that has to be read
/// before that is known.
pub open spec fn keeps(ids: Seq<FontId>, has: Seq<Has>, current: FontId, i: int) -> Result<bool, int>
    decreases ids.len() - i,
{
    if i >= ids.len() {
        Ok(false)
    } else if ids[i] != current || has[i] is Gone {
        keeps(ids, has, current, i + 1)
    } else if has[i] is Unread {
        Err(i)
    } else {
        Ok(has[i] is Yes)
    }
}

/// The first font from `i` on that has a glyph, or `primary`. `Err` names a
/// font that has to be read before that is known.
pub open spec fn first_with(ids: Seq<FontId>, has: Seq<Has>, primary: FontId, i: int) -> Result<
    FontId,
    int,
>
    decreases ids.len() - i,
{
    if i >= ids.len() {
        Ok(primary)
    } else if has[i] is Unread {
        Err(i)
    } else if has[i] is Yes {
        Ok(ids[i])
    } else {
        first_with(ids, has, primary, i + 1)
    }
}

/// The font for a character: the current one where it has a glyph, else the
/// first of the chain that does, else the primary one.
pub open spec fn font_for(ids: Seq<FontId>, has: Seq<Has>, current: FontId, primary: FontId) -> Result<
    FontId,
    int,
> {
    match keeps(ids, has, current, 0) {
        Err(i) => Err(i),
        Ok(true) => Ok(current),
        Ok(false) => first_with(ids, has, primary, 0),
    }
}

/// An answer or the number of a font, as mathematical values.
pub open spec fn need_view<T>(r: Result<T, usize>) -> Result<T, int> {
    match r {
        Ok(x) => Ok(x),
        Err(i) => Err(i as int),
    }
}

/// The font for a character, out of what is known of each font of the
/// chain.
pub fn pick_font(ids: &Vec<FontId>, has: &Vec<Has>, current: FontId, primary: FontId) -> (r: Result<
    FontId,
    usize,
>)
    requires
        ids@.len() == has@.len(),
    ensures
        need_view(r) == font_for(ids@, has@, current, primary),
{
    let mut kept = false;
    let mut i: usize = 0;
    while i < ids.len()
        invariant_except_break
            i <= ids.len(),
            ids@.len() == has@.len(),
            !kept,
            keeps(ids@, has@, current, 0) == keeps(ids@, has@, current, i as int),
        ensures
            keeps(ids@, has@, current, 0) == Ok::<bool, int>(kept),
        decreases ids.len() - i,
    {
        if ids[i] == current && has[i] != Has::Gone {
            if has[i] == Has::Unread {
                return Err(i);
            }
            kept = has[i] == Has::Yes;
            break;
        }
        i += 1;
    }
    if kept {
        return Ok(current);
    }
    let mut k: usize = 0;
    while k < ids.len()
        invariant
            k <= ids.len(),
            ids@.len() == has@.len(),
            keeps(ids@, has@, current, 0) == Ok::<bool, int>(false),
            first_with(ids@, has@, primary, 0) == first_with(ids@, has@, primary, k as int),
        decreases ids.len() - k,
    {
        if has[k] == Has::Unread {
            return Err(k);
        }
        if has[k] == Has::Yes {
            return Ok(ids[k]);
        }
        k += 1;
    }
    Ok(primary)
}

/// A font of a fallback chain: its file was not read yet, cannot be read,
/// or is at hand.
pub enum Face {
    /// The file was not read yet.
    Unread,
    /// The face cannot be read.
    Gone,
    /// The face is at hand.
    Loaded(FaceData),
}

/// One link of a fallback chain.
pub struct Link {
    /// The font.
    pub id: FontId,
    /// What is at hand of it.
    pub face: Face,
}

/// Whether a link's face can be asked for glyphs.
pub open spec fn link_ok(l: Link) -> bool {
    l.face matches Face::Loaded(d) ==> face_reads(
        d.bytes_view(),
        d.index_view() as nat,
        Asked::Glyphs,
    ) && 12 + 4 * d.index_view() <= usize::MAX
}

/// What is known of a link and a character.
pub open spec fn link_has(l: Link, c: char) -> Has {
    match l.face {
        Face::Unread => Has::Unread,
        Face::Gone => Has::Gone,
        Face::Loaded(d) => if font_glyph(d.bytes_view(), d.index_view() as nat, c) != 0 {
            Has::Yes
        } else {
            Has::No
        },
    }
}

/// What is known of a chain and a character.
pub open spec fn chain_has(chain: Seq<Link>, c: char) -> Seq<Has> {
    chain.map_values(|l: Link| link_has(l, c))
}

/// The fonts of a chain.
pub open spec fn chain_ids(chain: Seq<Link>) -> Seq<FontId> {
    chain.map_values(|l: Link| l.id)
}

impl Link {
    /// A link whose file was not read yet.
    pub fn unread(id: FontId) -> (l: Link)
        ensures
            l.id == id,
            l.face is Unread,
            link_ok(l),
    {
        Link { id, face: Face::Unread }
    }

    /// A link whose file could not be read.
    pub fn gone(id: FontId) -> (l: Link)
        ensures
            l.id == id,
            l.face is Gone,
            link_ok(l),
    {
        Link { id, face: Face::Gone }
    }

    /// A link whose file is at hand. A file that changed since the index was
    /// built may not hold the face any more, and a broken one may have a
    /// character map that cannot be searched.
    pub fn loaded(id: FontId, data: FaceData) -> (l: Link)
        requires
            12 + 4 * data.index_view() <= usize::MAX,
        ensures
            l.id == id,
            link_ok(l),
            if face_reads(data.bytes_view(), data.index_view() as nat, Asked::Glyphs) {
                l.face == Face::Loaded(data)
            } else {
                l.face is Gone
            },
    {
        if face_is_readable(data.data(), data.index() as usize, Asked::Glyphs) {
            Link { id, face: Face::Loaded(data) }
        } else {
            Link { id, face: Face::Gone }
        }
    }
}

/// Whether `c` is a control character.
pub open spec fn is_control(c: char) -> bool {
    c <= '\u{1f}' || '\u{7f}' <= c <= '\u{9f}'
}

/// A contiguous range of bytes shaped with one font.
#[derive(Debug, Clone, Copy, PartialEq, Eq, Structural)]
pub struct Run {
    /// The font.
    pub font: FontId,
    /// Where the run starts.
    pub start: usize,
    /// Where it ends.
    pub end: usize,
}

/// The runs with the bytes from `at` to `end` added: the last run grows
/// where it has the same font.
pub open spec fn grown(runs: Seq<Run>, font: FontId, at: usize, end: usize) -> Seq<Run> {
    if runs.len() > 0 && runs.last().font == font {
        runs.update(runs.len() - 1, Run { end, ..runs.last() })
    } else {
        runs.push(Run { font, start: at, end })
    }
}

/// The runs of the characters from `at` on, after `runs`. White space and
/// control characters never break a run. `Err` names a font that has to be
/// read first.
pub open spec fn runs_from(
    s: Seq<char>,
    chain: Seq<Link>,
    primary: FontId,
    current: FontId,
    at: int,
    runs: Seq<Run>,
) -> Result<Seq<Run>, int>
    decreases s.len(),
{
    if s.len() == 0 {
        Ok(runs)
    } else {
        let c = s[0];
        let font = if is_space(c) || is_control(c) {
            Ok(current)
        } else {
            font_for(chain_ids(chain), chain_has(chain, c), current, primary)
        };
        match font {
            Err(i) => Err(i),
            Ok(f) => {
                let end = at + width(c);
                runs_from(
                    s.drop_first(),
                    chain,
                    primary,
                    f,
                    end,
                    grown(runs, f, at as usize, end as usize),
                )
            },
        }
    }
}

fn known_of(chain: &Vec<Link>, c: char) -> (has: Vec<Has>)
    requires
        forall|i: int| 0 <= i < chain@.len() ==> link_ok(#[trigger] chain@[i]),
    ensures
        has@ == chain_has(chain@, c),
{
    let mut has: Vec<Has> = Vec::new();
    let mut i: usize = 0;
    while i < chain.len()
        invariant
            i <= chain.len(),
            has@.len() == i,
            forall|k: int| 0 <= k < chain@.len() ==> link_ok(#[trigger] chain@[k]),
            forall|k: int| 0 <= k < i ==> has@[k] == link_has(#[trigger] chain@[k], c),
        decreases chain.len() - i,
    {
        let h = match &chain[i].face {
            Face::Unread => Has::Unread,
            Face::Gone => Has::Gone,
            Face::Loaded(d) => match glyph_of_char(d.data(), d.index() as usize, c) {
                Some(g) => if g != 0 {
                    Has::Yes
                } else {
                    Has::No
                },
                None => Has::No,
            },
        };
        has.push(h);
        i += 1;
    }
    assert(has@ =~= chain_has(chain@, c));
    has
}

/// Split a display string into runs by font, following the fallback chain.
///
/// `Err` names a link whose file has to be read before the split can go on,
/// so that no file is read that no character needs.
pub fn split_runs(disp: &str, chain: &Vec<Link>, primary: FontId) -> (r: Result<Vec<Run>, usize>)
    requires
        forall|i: int| 0 <= i < chain@.len() ==> link_ok(#[trigger] chain@[i]),
    ensures
        match r {
            Ok(runs) => runs_from(disp@, chain@, primary, primary, 0, Seq::empty()) == Ok::<
                Seq<Run>,
                int,
            >(runs@),
            Err(i) => runs_from(disp@, chain@, primary, primary, 0, Seq::empty()) == Err::<
                Seq<Run>,
                int,
            >(i as int),
        },
{
    let v = chars_of(disp);
    let size: usize = disp.as_bytes().len();
    let mut ids: Vec<FontId> = Vec::new();
    let mut k: usize = 0;
    while k < chain.len()
        invariant
            k <= chain.len(),
            ids@.len() == k,
            forall|j: int| 0 <= j < k ==> ids@[j] == (#[trigger] chain@[j]).id,
        decreases chain.len() - k,
    {
        ids.push(chain[k].id);
        k += 1;
    }
    assert(ids@ =~= chain_ids(chain@));
    let ghost want = runs_from(disp@, chain@, primary, primary, 0, Seq::empty());
    let mut runs: Vec<Run> = Vec::new();
    let mut current: FontId = primary;
    let mut at: usize = 0;
    let mut i: usize = 0;
    assert(v@.skip(0) =~= v@);
    while i < v.len()
        invariant
            i <= v.len(),
            v@ == disp@,
            ids@ == chain_ids(chain@),
            at + encode_utf8(v@.skip(i as int)).len() == size,
            forall|j: int| 0 <= j < chain@.len() ==> link_ok(#[trigger] chain@[j]),
            want == runs_from(disp@, chain@, primary, primary, 0, Seq::empty()),
            runs_from(v@.skip(i as int), chain@, primary, current, at as int, runs@) == want,
        decreases v.len() - i,
    {
        let c = v[i];
        let ghost rest = v@.skip(i as int);
        proof {
            assert(rest[0] == c);
            assert(rest.drop_first() =~= v@.skip(i + 1));
            lemma_size(rest);
        }
        let plain = !space(c) && !(c <= '\u{1f}' || ('\u{7f}' <= c && c <= '\u{9f}'));
        if plain {
            let has = known_of(chain, c);
            match pick_font(&ids, &has, current, primary) {
                Ok(f) => {
                    current = f;
                },
                Err(need) => {
                    return Err(need);
                },
            }
        }
        let end: usize = at + width_of(c);
        let n: usize = runs.len();
        let ghost before = runs@;
        if n > 0 && runs[n - 1].font == current {
            let start: usize = runs[n - 1].start;
            runs.set(n - 1, Run { font: current, start, end });
        } else {
            runs.push(Run { font: current, start: at, end });
        }
        assert(runs@ =~= grown(before, current, at, end));
        at = end;
        i += 1;
    }
    assert(v@.skip(i as int) =~= Seq::<char>::empty());
    Ok(runs)
}

// ---------------------------------------------------------------------
// cursor positions
// ---------------------------------------------------------------------

/// Cursor pairs with more behind them, but for repeats of the offset just
/// before.
pub open spec fn with_cursors<X>(out: Seq<(u32, X)>, add: Seq<(u32, X)>) -> Seq<(u32, X)>
    decreases add.len(),
{
    if add.len() == 0 {
        out
    } else {
        let next = if out.len() > 0 && out.last().0 == add[0].0 {
            out
        } else {
            out.push(add[0])
        };
        with_cursors(next, add.drop_first())
    }
}

/// Append cursor pairs, dropping repeats of the previous byte offset.
///
/// A tab expands to clusters that all carry the tab's offset; only the first
/// of them is a real cursor position.
pub fn push_cursors<X: Copy>(out: &mut Vec<(u32, X)>, add: &[(u32, X)])
    ensures
        final(out)@ == with_cursors(old(out)@, add@),
{
    let ghost want = with_cursors(out@, add@);
    let mut i: usize = 0;
    assert(add@.skip(0) =~= add@);
    while i < add.len()
        invariant
            i <= add.len(),
            want == with_cursors(old(out)@, add@),
            with_cursors(out@, add@.skip(i as int)) == want,
        decreases add.len() - i,
    {
        proof {
            assert(add@.skip(i as int)[0] == add@[i as int]);
            assert(add@.skip(i as int).drop_first() =~= add@.skip(i + 1));
        }
        let n: usize = out.len();
        let pair = add[i];
        if !(n > 0 && out[n - 1].0 == pair.0) {
            out.push(pair);
        }
        i += 1;
    }
    assert(add@.skip(i as int) =~= Seq::<(u32, X)>::empty());
}

/// No offset stands twice in a row, however often it is pushed.
pub proof fn offsets_never_repeat<X>(out: Seq<(u32, X)>, add: Seq<(u32, X)>)
    requires
        forall|i: int| 0 < i < out.len() ==> out[i - 1].0 != (#[trigger] out[i]).0,
    ensures
        forall|i: int|
            0 < i < with_cursors(out, add).len() ==> with_cursors(out, add)[i - 1].0 != (
            #[trigger] with_cursors(out, add)[i]).0,
    decreases add.len(),
{
    if add.len() > 0 {
        let next = if out.len() > 0 && out.last().0 == add[0].0 {
            out
        } else {
            out.push(add[0])
        };
        offsets_never_repeat(next, add.drop_first());
        let all = with_cursors(out, add);
        assert(all == with_cursors(next, add.drop_first()));
        assert forall|i: int| 0 < i < all.len() implies all[i - 1].0 != (#[trigger] all[i]).0 by {}
    }
}

/// How many bytes a text takes.
pub open spec fn byte_len(s: Seq<char>) -> nat {
    encode_utf8(s).len()
}

/// Whether the first font of a chain is the primary one and has what a text
/// needs.
pub open spec fn covered(s: Seq<char>, chain: Seq<Link>, primary: FontId) -> bool {
    &&& chain.len() > 0
    &&& chain[0].id == primary
    &&& forall|i: int|
        0 <= i < s.len() ==> is_space(#[trigger] s[i]) || is_control(s[i]) || link_has(
            chain[0],
            s[i],
        ) is Yes
}

proof fn lemma_covered(s: Seq<char>, chain: Seq<Link>, primary: FontId, at: int, runs: Seq<Run>)
    requires
        covered(s, chain, primary),
        runs.len() > 0 ==> runs.last().font == primary,
    ensures
        runs_from(s, chain, primary, primary, at, runs) == Ok::<Seq<Run>, int>(
            if s.len() == 0 {
                runs
            } else {
                grown(runs, primary, at as usize, (at + byte_len(s)) as usize)
            },
        ),
    decreases s.len(),
{
    lemma_size(s);
    if s.len() > 0 {
        let c = s[0];
        let rest = s.drop_first();
        lemma_size(rest);
        let end = at + width(c);
        let has = chain_has(chain, c);
        let ids = chain_ids(chain);
        assert(has[0] == link_has(chain[0], c));
        assert(ids[0] == primary);
        assert(!(is_space(c) || is_control(c)) ==> keeps(ids, has, primary, 0) == Ok::<bool, int>(true));
        assert forall|i: int| 0 <= i < rest.len() implies is_space(#[trigger] rest[i])
            || is_control(rest[i]) || link_has(chain[0], rest[i]) is Yes by {
            assert(rest[i] == s[i + 1]);
        }
        let next = grown(runs, primary, at as usize, end as usize);
        lemma_covered(rest, chain, primary, end, next);
        if rest.len() > 0 {
            assert(grown(next, primary, end as usize, (end + byte_len(rest)) as usize) =~= grown(
                runs,
                primary,
                at as usize,
                (at + byte_len(s)) as usize,
            ));
        } else {
            assert(byte_len(rest) == 0);
        }
    }
}

/// A text that the primary font covers is one run of it, and no other font
/// of the chain has to be read, whatever is known of them.
pub proof fn a_covered_text_needs_one_font(s: Seq<char>, chain: Seq<Link>, primary: FontId)
    requires
        covered(s, chain, primary),
        s.len() > 0,
        byte_len(s) <= usize::MAX,
    ensures
        runs_from(s, chain, primary, primary, 0, Seq::empty()) == Ok::<Seq<Run>, int>(
            seq![Run { font: primary, start: 0, end: byte_len(s) as usize }],
        ),
{
    lemma_covered(s, chain, primary, 0, Seq::empty());
    assert(grown(Seq::empty(), primary, 0, byte_len(s) as usize) =~= seq![
        Run { font: primary, start: 0, end: byte_len(s) as usize },
    ]);
}

/// Runs that follow each other from the start of a text up to a place, each
/// in another font than the one before it.
pub open spec fn runs_up_to(runs: Seq<Run>, at: int) -> bool {
    &&& runs.len() == 0 ==> at == 0
    &&& runs.len() > 0 ==> runs[0].start == 0 && runs.last().end == at
    &&& forall|i: int| 0 <= i < runs.len() ==> (#[trigger] runs[i]).start < runs[i].end
    &&& forall|i: int, j: int|
        0 <= i && j == i + 1 && j < runs.len() ==> (#[trigger] runs[i]).end == (
        #[trigger] runs[j]).start && runs[i].font != runs[j].font
}

proof fn lemma_runs(
    s: Seq<char>,
    chain: Seq<Link>,
    primary: FontId,
    current: FontId,
    at: int,
    runs: Seq<Run>,
)
    requires
        0 <= at,
        at + byte_len(s) <= usize::MAX,
        runs_up_to(runs, at),
    ensures
        runs_from(s, chain, primary, current, at, runs) matches Ok(all) ==> runs_up_to(
            all,
            at + byte_len(s),
        ),
    decreases s.len(),
{
    lemma_size(s);
    if s.len() > 0 {
        let c = s[0];
        let font = if is_space(c) || is_control(c) {
            Ok(current)
        } else {
            font_for(chain_ids(chain), chain_has(chain, c), current, primary)
        };
        if font is Ok {
            let f = font->Ok_0;
            let end = at + width(c);
            let next = grown(runs, f, at as usize, end as usize);
            assert(width(c) >= 1);
            assert forall|i: int, j: int| 0 <= i && j == i + 1 && j < next.len() implies (
            #[trigger] next[i]).end == (#[trigger] next[j]).start && next[i].font
                != next[j].font by {
                if j < runs.len() {
                    assert(runs[i].end == runs[j].start && runs[i].font != runs[j].font);
                }
            }
            lemma_runs(s.drop_first(), chain, primary, f, end, next);
        }
    }
}

/// The runs of a text follow each other from its first byte to its last, and
/// neighbours are in different fonts.
pub proof fn runs_cover_the_text(s: Seq<char>, chain: Seq<Link>, primary: FontId)
    requires
        byte_len(s) <= usize::MAX,
    ensures
        runs_from(s, chain, primary, primary, 0, Seq::empty()) matches Ok(all) ==> runs_up_to(
            all,
            byte_len(s) as int,
        ),
{
    lemma_runs(s, chain, primary, primary, 0, Seq::empty());
}

} // verus!
