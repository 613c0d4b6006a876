//! How a text is cut up before it is shaped: into lines, and each line into
//! runs of one font.

use vstd::prelude::*;
use vstd::utf8::encode_utf8;

use crate::chars::is_space;
use crate::text::db::FontId;
use crate::text::shaping::{
    byte_len, chain_has, chain_ids, expanded, first_with, font_for, grown, is_control, keeps,
    line_stop, lines_from, link_has, origins, runs_from, times, width, with_cursors, Has, Link, Run,
};

verus! {

// ---------------------------------------------------------------------
// lines
// ---------------------------------------------------------------------

/// Where the break after a line is: at its end, or one byte after it where
/// the line ends with a carriage return and a line feed.
pub open spec fn break_after(b: Seq<u8>, end: int) -> int {
    if end < b.len() && b[end] == 13 {
        end + 1
    } else {
        end
    }
}

/// Whether nothing but a line break stands between a line and the next.
pub open spec fn follows(b: Seq<u8>, line: (int, int), next: (int, int)) -> bool {
    &&& 0 <= line.0 <= line.1 < next.0 <= b.len()
    &&& b[next.0 - 1] == 10
    &&& next.0 == break_after(b, line.1) + 1
    &&& line.1 > line.0 ==> b[line.1 - 1] != 13 || b[line.1] == 13
}

proof fn lemma_lines_follow(b: Seq<u8>, start: int, i: int)
    requires
        0 <= start <= i <= b.len(),
        start == 0 || b[start - 1] == 10,
        forall|j: int| start <= j < i ==> b[j] != 10,
    ensures
        lines_from(b, start, i).len() > 0,
        lines_from(b, start, i)[0].0 == start,
        lines_from(b, start, i).last().1 == b.len(),
        forall|k: int, m: int|
            0 <= k && m == k + 1 && m < lines_from(b, start, i).len() ==> follows(
                b,
                #[trigger] lines_from(b, start, i)[k],
                #[trigger] lines_from(b, start, i)[m],
            ),
    decreases b.len() - i,
{
    let all = lines_from(b, start, i);
    if i < b.len() {
        if b[i] == 10 {
            lemma_lines_follow(b, i + 1, i + 1);
            let rest = lines_from(b, i + 1, i + 1);
            assert(all == seq![(start, line_stop(b, i))] + rest);
            assert(i > start || i == 0 || b[i - 1] == 10);
            assert forall|k: int, m: int| 0 <= k && m == k + 1 && m < all.len() implies follows(
                b,
                #[trigger] all[k],
                #[trigger] all[m],
            ) by {
                assert(all[m] == rest[m - 1]);
                if k > 0 {
                    assert(all[k] == rest[k - 1]);
                }
            }
            assert(all.last() == rest.last());
        } else {
            lemma_lines_follow(b, start, i + 1);
        }
    }
}

/// The lines of a text follow each other from its start to its end. Between
/// a line and the next there is a line feed, or a carriage return and a line
/// feed, and nothing else.
pub proof fn lines_follow_each_other(b: Seq<u8>)
    ensures
        lines_from(b, 0, 0).len() > 0,
        lines_from(b, 0, 0)[0].0 == 0,
        lines_from(b, 0, 0).last().1 == b.len(),
        forall|k: int, m: int|
            0 <= k && m == k + 1 && m < lines_from(b, 0, 0).len() ==> follows(
                b,
                #[trigger] lines_from(b, 0, 0)[k],
                #[trigger] lines_from(b, 0, 0)[m],
            ),
{
    lemma_lines_follow(b, 0, 0);
}

// ---------------------------------------------------------------------
// tabs
// ---------------------------------------------------------------------

/// A line is displayed piece by piece: each tab as so many blanks, whatever
/// else it holds as it is, in the order it stands there.
pub proof fn a_tab_is_so_many_blanks(a: Seq<char>, b: Seq<char>)
    ensures
        expanded(a + b) == expanded(a) + expanded(b),
        (forall|i: int| 0 <= i < a.len() ==> a[i] == '\t') ==> expanded(a) == times(
            ' ',
            a.len() * 4,
        ),
        (forall|i: int| 0 <= i < a.len() ==> a[i] != '\t') ==> expanded(a) == a,
    decreases a.len(),
{
    if a.len() == 0 {
        assert(a + b =~= b);
        assert(expanded(a) + expanded(b) =~= expanded(b));
        assert(times(' ', 0) =~= expanded(a));
        assert(expanded(a) =~= a);
    } else {
        let rest = a.drop_first();
        a_tab_is_so_many_blanks(rest, b);
        assert((a + b).drop_first() =~= rest + b);
        assert((a + b)[0] == a[0]);
        assert(expanded(a + b) =~= expanded(a) + expanded(b));
        assert forall|i: int| 0 <= i < rest.len() implies rest[i] == a[i + 1] by {}
        if forall|i: int| 0 <= i < a.len() ==> a[i] == '\t' {
            assert(a[0] == '\t');
            assert(expanded(a) =~= times(' ', a.len() * 4));
        }
        if forall|i: int| 0 <= i < a.len() ==> a[i] != '\t' {
            assert(a[0] != '\t');
            assert(expanded(a) =~= a);
        }
    }
}

/// Each byte of a displayed line comes from the byte at which the character
/// it belongs to starts in the line itself, and the end of the one from the
/// end of the other.
pub proof fn a_byte_comes_from_its_character(a: Seq<char>, c: char, at: int)
    requires
        0 <= at,
        at + byte_len(a) + width(c) <= u32::MAX,
    ensures
        ({
            let was = origins(a, at);
            let now = origins(a.push(c), at);
            let n = if c == '\t' {
                4nat
            } else {
                width(c)
            };
            &&& was.len() > 0
            &&& now.len() == was.len() + n
            &&& forall|i: int| 0 <= i < was.len() - 1 ==> now[i] == was[i]
            &&& forall|i: int|
                was.len() - 1 <= i < now.len() - 1 ==> #[trigger] now[i] == at + byte_len(a)
            &&& now.last() == at + byte_len(a) + width(c)
        }),
    decreases a.len(),
{
    let was = origins(a, at);
    let now = origins(a.push(c), at);
    let n: nat = if c == '\t' {
        4nat
    } else {
        width(c)
    };
    if a.len() == 0 {
        assert(encode_utf8(a).len() == 0);
        assert(a.push(c).drop_first() =~= a);
        assert(now == times(at as u32, n) + origins(a, at + width(c)));
    } else {
        let rest = a.drop_first();
        assert(encode_utf8(a).len() == width(a[0]) + encode_utf8(rest).len());
        assert(a.push(c).drop_first() =~= rest.push(c));
        a_byte_comes_from_its_character(rest, c, at + width(a[0]));
        let w = origins(rest, at + width(a[0]));
        let x = origins(rest.push(c), at + width(a[0]));
        let m: nat = if a[0] == '\t' {
            4nat
        } else {
            width(a[0])
        };
        assert(was == times(at as u32, m) + w);
        assert(now == times(at as u32, m) + x);
        assert forall|i: int| 0 <= i < was.len() - 1 implies now[i] == was[i] by {
            if i >= m {
                assert(now[i] == x[i - m]);
                assert(was[i] == w[i - m]);
            }
        }
        assert forall|i: int| was.len() - 1 <= i < now.len() - 1 implies #[trigger] now[i] == at
            + byte_len(a) by {
            assert(now[i] == x[i - m]);
        }
        assert(now.last() == x.last());
    }
}

// ---------------------------------------------------------------------
// fonts
// ---------------------------------------------------------------------

/// Whether every font of a chain stands in it once.
pub open spec fn apart_ids(ids: Seq<FontId>) -> bool {
    forall|i: int, j: int| 0 <= i < j < ids.len() ==> #[trigger] ids[i] != #[trigger] ids[j]
}

proof fn lemma_keeps(ids: Seq<FontId>, has: Seq<Has>, current: FontId, k: int, i: int)
    requires
        ids.len() == has.len(),
        apart_ids(ids),
        0 <= i,
    ensures
        0 <= k < ids.len() && ids[k] == current && i <= k ==> keeps(ids, has, current, i) == (
        match has[k] {
            Has::Gone => Ok(false),
            Has::Unread => Err(k),
            Has::Yes => Ok(true),
            Has::No => Ok(false),
        }),
        (forall|j: int| i <= j < ids.len() ==> ids[j] != current) ==> keeps(ids, has, current, i)
            == Ok::<bool, int>(false),
    decreases ids.len() - i,
{
    if i < ids.len() {
        lemma_keeps(ids, has, current, k, i + 1);
        if 0 <= k < ids.len() && ids[k] == current && i == k {
            assert forall|j: int| i + 1 <= j < ids.len() implies ids[j] != current by {
                assert(ids[k] != ids[j]);
            }
        }
    }
}

proof fn lemma_first_with(ids: Seq<FontId>, has: Seq<Has>, primary: FontId, m: int, i: int)
    requires
        ids.len() == has.len(),
        0 <= i <= m <= ids.len(),
        forall|j: int| i <= j < m ==> has[j] is No || has[j] is Gone,
    ensures
        m == ids.len() ==> first_with(ids, has, primary, i) == Ok::<FontId, int>(primary),
        m < ids.len() && has[m] is Yes ==> first_with(ids, has, primary, i) == Ok::<FontId, int>(
            ids[m],
        ),
        m < ids.len() && has[m] is Unread ==> first_with(ids, has, primary, i) == Err::<
            FontId,
            int,
        >(m),
    decreases m - i,
{
    if i < m {
        assert(has[i] is No || has[i] is Gone);
        lemma_first_with(ids, has, primary, m, i + 1);
    }
}

/// The font that drew the last character draws the next as well where it has
/// it.
pub proof fn the_font_is_kept(ids: Seq<FontId>, has: Seq<Has>, primary: FontId, k: int)
    requires
        ids.len() == has.len(),
        apart_ids(ids),
        0 <= k < ids.len(),
        has[k] is Yes,
    ensures
        font_for(ids, has, ids[k], primary) == Ok::<FontId, int>(ids[k]),
{
    lemma_keeps(ids, has, ids[k], k, 0);
}

/// Where the font that drew the last character does not have the next, the
/// first of the chain that has it draws it, and the primary font where none
/// does.
pub proof fn the_first_that_has_it_draws_it(
    ids: Seq<FontId>,
    has: Seq<Has>,
    current: FontId,
    primary: FontId,
    m: int,
)
    requires
        ids.len() == has.len(),
        apart_ids(ids),
        0 <= m <= ids.len(),
        m < ids.len() ==> has[m] is Yes,
        forall|j: int| 0 <= j < m ==> has[j] is No || has[j] is Gone,
        forall|j: int|
            0 <= j < ids.len() && #[trigger] ids[j] == current ==> has[j] is No || has[j] is Gone,
    ensures
        font_for(ids, has, current, primary) == Ok::<FontId, int>(
            if m < ids.len() {
                ids[m]
            } else {
                primary
            },
        ),
{
    if exists|j: int| 0 <= j < ids.len() && ids[j] == current {
        let j = choose|j: int| 0 <= j < ids.len() && ids[j] == current;
        lemma_keeps(ids, has, current, j, 0);
    } else {
        lemma_keeps(ids, has, current, 0, 0);
    }
    lemma_first_with(ids, has, primary, m, 0);
}

/// A font is read only where it may be needed: the one that drew the last
/// character first, and then the first of the chain of which nothing is
/// known, where none before it has the character.
pub proof fn a_font_is_read_when_it_is_needed(
    ids: Seq<FontId>,
    has: Seq<Has>,
    current: FontId,
    primary: FontId,
    m: int,
)
    requires
        ids.len() == has.len(),
        apart_ids(ids),
        0 <= m < ids.len(),
        has[m] is Unread,
    ensures
        ids[m] == current ==> font_for(ids, has, current, primary) == Err::<FontId, int>(m),
        (forall|j: int| 0 <= j < m ==> has[j] is No || has[j] is Gone) && (forall|j: int|
            0 <= j < ids.len() && #[trigger] ids[j] == current ==> has[j] is No || has[j] is Gone)
            ==> font_for(ids, has, current, primary) == Err::<FontId, int>(m),
{
    if ids[m] == current {
        lemma_keeps(ids, has, current, m, 0);
    }
    if (forall|j: int| 0 <= j < m ==> has[j] is No || has[j] is Gone) && (forall|j: int|
        0 <= j < ids.len() && #[trigger] ids[j] == current ==> has[j] is No || has[j] is Gone) {
        if exists|j: int| 0 <= j < ids.len() && ids[j] == current {
            let j = choose|j: int| 0 <= j < ids.len() && ids[j] == current;
            lemma_keeps(ids, has, current, j, 0);
        } else {
            lemma_keeps(ids, has, current, 0, 0);
        }
        lemma_first_with(ids, has, primary, m, 0);
    }
}

/// Whether a font of a chain has a character.
pub open spec fn draws(chain: Seq<Link>, font: FontId, c: char) -> bool {
    exists|i: int|
        0 <= i < chain.len() && (#[trigger] chain[i]).id == font && link_has(chain[i], c) is Yes
}

/// Whether no font of a chain has a character.
pub open spec fn none_draws(chain: Seq<Link>, c: char) -> bool {
    forall|i: int|
        0 <= i < chain.len() ==> link_has(#[trigger] chain[i], c) is No || link_has(
            chain[i],
            c,
        ) is Gone
}

/// Whether a font is the one for a character: it has it, or it is the primary
/// one and none has it, or the character leaves no ink.
pub open spec fn suits(chain: Seq<Link>, primary: FontId, font: FontId, c: char) -> bool {
    ||| is_space(c) || is_control(c)
    ||| draws(chain, font, c)
    ||| font == primary && none_draws(chain, c)
}

proof fn lemma_suits(chain: Seq<Link>, current: FontId, primary: FontId, c: char)
    ensures
        font_for(chain_ids(chain), chain_has(chain, c), current, primary) matches Ok(f) ==> draws(
            chain,
            f,
            c,
        ) || f == primary && none_draws(chain, c),
{
    let ids = chain_ids(chain);
    let has = chain_has(chain, c);
    lemma_kept_draws(chain, c, current, 0);
    lemma_first_draws(chain, c, primary, 0);
}

proof fn lemma_kept_draws(chain: Seq<Link>, c: char, current: FontId, i: int)
    requires
        0 <= i,
    ensures
        keeps(chain_ids(chain), chain_has(chain, c), current, i) == Ok::<bool, int>(true) ==> draws(
            chain,
            current,
            c,
        ),
    decreases chain.len() - i,
{
    if i < chain.len() {
        lemma_kept_draws(chain, c, current, i + 1);
        assert(chain_ids(chain)[i] == chain[i].id);
        assert(chain_has(chain, c)[i] == link_has(chain[i], c));
    }
}

proof fn lemma_first_draws(chain: Seq<Link>, c: char, primary: FontId, i: int)
    requires
        0 <= i,
        forall|j: int|
            0 <= j < i && j < chain.len() ==> link_has(#[trigger] chain[j], c) is No || link_has(
                chain[j],
                c,
            ) is Gone,
    ensures
        first_with(chain_ids(chain), chain_has(chain, c), primary, i) matches Ok(f) ==> draws(
            chain,
            f,
            c,
        ) || f == primary && none_draws(chain, c),
    decreases chain.len() - i,
{
    if i < chain.len() {
        assert(chain_ids(chain)[i] == chain[i].id);
        assert(chain_has(chain, c)[i] == link_has(chain[i], c));
        if link_has(chain[i], c) is No || link_has(chain[i], c) is Gone {
            lemma_first_draws(chain, c, primary, i + 1);
        }
    }
}

/// Whether a run that suits a character holds the byte it starts with.
pub open spec fn held(all: Seq<Run>, chain: Seq<Link>, primary: FontId, at: int, c: char) -> bool {
    exists|r: int|
        0 <= r < all.len() && (#[trigger] all[r]).start <= at < all[r].end && suits(
            chain,
            primary,
            all[r].font,
            c,
        )
}

/// Whether one run holds two bytes.
pub open spec fn together(all: Seq<Run>, from: int, to: int) -> bool {
    exists|r: int| 0 <= r < all.len() && (#[trigger] all[r]).start <= from && to < all[r].end
}

spec fn reach(runs: Seq<Run>, at: int) -> bool {
    runs.len() > 0 ==> runs.last().start <= at && runs.last().end == at
}

proof fn lemma_kept(
    s: Seq<char>,
    chain: Seq<Link>,
    primary: FontId,
    current: FontId,
    at: int,
    runs: Seq<Run>,
    r: int,
)
    requires
        0 <= at,
        at + byte_len(s) <= usize::MAX,
        reach(runs, at),
        0 <= r < runs.len(),
    ensures
        runs_from(s, chain, primary, current, at, runs) matches Ok(all) ==> r < all.len()
            && all[r].font == runs[r].font && all[r].start == runs[r].start && all[r].end
            >= runs[r].end,
    decreases s.len(),
{
    if s.len() > 0 {
        let c = s[0];
        let rest = s.drop_first();
        assert(encode_utf8(s).len() == width(c) + encode_utf8(rest).len());
        let font = if is_space(c) || is_control(c) {
            Ok(current)
        } else {
            font_for(chain_ids(chain), chain_has(chain, c), current, primary)
        };
        if font is Ok {
            let f = font->Ok_0;
            let end = at + width(c);
            let next = grown(runs, f, at as usize, end as usize);
            lemma_kept(rest, chain, primary, f, end, next, r);
        }
    }
}

proof fn lemma_held(
    s: Seq<char>,
    chain: Seq<Link>,
    primary: FontId,
    current: FontId,
    at: int,
    runs: Seq<Run>,
    i: int,
)
    requires
        0 <= at,
        at + byte_len(s) <= usize::MAX,
        reach(runs, at),
        0 <= i < s.len(),
    ensures
        runs_from(s, chain, primary, current, at, runs) matches Ok(all) ==> {
            &&& held(all, chain, primary, at + byte_len(s.take(i)), s[i])
            &&& i > 0 && (is_space(s[i]) || is_control(s[i])) ==> together(
                all,
                at + byte_len(s.take(i - 1)),
                at + byte_len(s.take(i)),
            )
        },
    decreases s.len(),
{
    let c = s[0];
    let rest = s.drop_first();
    assert(encode_utf8(s).len() == width(c) + encode_utf8(rest).len());
    assert(width(c) >= 1);
    let font = if is_space(c) || is_control(c) {
        Ok(current)
    } else {
        font_for(chain_ids(chain), chain_has(chain, c), current, primary)
    };
    lemma_suits(chain, current, primary, c);
    if font is Ok {
        let f = font->Ok_0;
        let end = at + width(c);
        let next = grown(runs, f, at as usize, end as usize);
        let r = runs_from(rest, chain, primary, f, end, next);
        assert(s.take(0) =~= Seq::<char>::empty());
        assert(encode_utf8(s.take(0)).len() == 0);
        if i == 0 {
            lemma_kept(rest, chain, primary, f, end, next, next.len() - 1);
            if r is Ok {
                let all = r->Ok_0;
                assert(all[next.len() - 1].font == f);
                assert(held(all, chain, primary, at, c));
            }
        } else {
            lemma_held(rest, chain, primary, f, end, next, i - 1);
            lemma_off(s, i);
            assert(rest[i - 1] == s[i]);
            if i > 1 {
                lemma_off(s, i - 1);
            } else if r is Ok && (is_space(s[1]) || is_control(s[1])) {
                let last = rest.drop_first();
                assert(encode_utf8(rest).len() == width(s[1]) + encode_utf8(last).len());
                assert(width(s[1]) >= 1);
                let then = end + width(s[1]);
                let more = grown(next, f, end as usize, then as usize);
                lemma_kept(last, chain, primary, f, then, more, more.len() - 1);
                let all = r->Ok_0;
                assert(rest.take(0) =~= Seq::<char>::empty());
                assert(encode_utf8(rest.take(0)).len() == 0);
                assert(all[more.len() - 1].start <= at);
                assert(together(all, at, end));
            }
        }
    }
}

proof fn lemma_off(s: Seq<char>, i: int)
    requires
        0 < i <= s.len(),
    ensures
        byte_len(s.take(i)) == width(s[0]) + byte_len(s.drop_first().take(i - 1)),
{
    assert(s.take(i).drop_first() =~= s.drop_first().take(i - 1));
    assert(s.take(i)[0] == s[0]);
}

/// Each character of a text is in a run whose font has it, or in one of the
/// primary font where no font of the chain has it. A character that leaves no
/// ink stays in the run of the one before it.
pub proof fn each_character_is_in_a_font_that_has_it(
    s: Seq<char>,
    chain: Seq<Link>,
    primary: FontId,
    i: int,
)
    requires
        byte_len(s) <= usize::MAX,
        0 <= i < s.len(),
    ensures
        runs_from(s, chain, primary, primary, 0, Seq::empty()) matches Ok(all) ==> {
            &&& held(all, chain, primary, byte_len(s.take(i)) as int, s[i])
            &&& i > 0 && (is_space(s[i]) || is_control(s[i])) ==> together(
                all,
                byte_len(s.take(i - 1)) as int,
                byte_len(s.take(i)) as int,
            )
        },
{
    lemma_held(s, chain, primary, primary, 0, Seq::empty(), i);
}

/// A character leaves no ink where it is a control character: one below the
/// blank, or one of the block above the printable ASCII characters.
pub proof fn control_characters_are_two_blocks(c: char)
    ensures
        is_control(c) <==> (c as u32) < 32 || 127 <= (c as u32) < 160,
{
}

// ---------------------------------------------------------------------
// cursors
// ---------------------------------------------------------------------

/// A cursor position joins those there are unless the last of them is at the
/// same place already.
pub proof fn a_cursor_position_joins_once<X>(
    out: Seq<(u32, X)>,
    add: Seq<(u32, X)>,
    x: (u32, X),
)
    ensures
        with_cursors(out, Seq::empty()) == out,
        ({
            let was = with_cursors(out, add);
            let now = with_cursors(out, add.push(x));
            if was.len() > 0 && was.last().0 == x.0 {
                now == was
            } else {
                now == was.push(x)
            }
        }),
    decreases add.len(),
{
    if add.len() == 0 {
        assert(add.push(x).drop_first() =~= add);
        let next = if out.len() > 0 && out.last().0 == x.0 {
            out
        } else {
            out.push(x)
        };
        assert(with_cursors(next, add) == next);
    } else {
        let next = if out.len() > 0 && out.last().0 == add[0].0 {
            out
        } else {
            out.push(add[0])
        };
        assert(add.push(x).drop_first() =~= add.drop_first().push(x));
        assert(add.push(x)[0] == add[0]);
        a_cursor_position_joins_once(next, add.drop_first(), x);
    }
}

} // verus!
