//! What may be relied on when a list is driven: where keys, clicks, typing
//! and actions take the cursor, what is selected then, and which rows are on
//! screen.

use vstd::prelude::*;

use crate::chars::dec;
use crate::event::{key, mods};
use crate::introspect::addressing::{a_piece_more_is_the_last, lacks};
use crate::introspect::text::{joined, lemma_joined_push, split};
use crate::list::moves::{
    acted, first_match, in_turn, jumped, keyed, moved_to, nothing_typed, prefix_is_stale, pressed,
    replaced, ListAct,
};
use crate::list::paint::{laid_out, list_reads, painted, plan, redraw, row_reads, window_end};
use crate::list::{
    covers_view, first_shown, view_end, wanted_anchor, ListView, RowView, DOUBLE_CLICK,
    TYPE_AHEAD_GAP,
};
use crate::text::shaping::is_control;

verus! {

/// A list with rows, and the cursor on one of them.
pub open spec fn has_cursor(v: ListView) -> bool {
    &&& 0 <= v.cursor < v.rows.len() <= usize::MAX
    &&& 0 <= v.extend_from < v.rows.len()
    &&& 0 <= v.fits
}

/// Whether `w` is `v` with nothing but the cursor and the selection moved.
pub open spec fn only_moved(v: ListView, w: ListView) -> bool {
    w == (ListView {
        cursor: w.cursor,
        selected: w.selected,
        extend_from: w.extend_from,
        ..v
    })
}

/// Whether the cursor's row is the whole selection, and a later extension
/// starts there.
pub open spec fn alone(w: ListView) -> bool {
    &&& forall|i: usize| #[trigger] w.selected.contains(i) <==> i == w.cursor
    &&& w.extend_from == w.cursor
}

// ---------------------------------------------------------------------
// keys
// ---------------------------------------------------------------------

/// The keys that move the cursor.
pub open spec fn moves_cursor(keycode: u32) -> bool {
    keycode == key::UP || keycode == key::DOWN || keycode == key::PAGE_UP || keycode
        == key::PAGE_DOWN || keycode == key::HOME || keycode == key::END
}

/// After Home no row is before the cursor, and after End none is behind it.
pub proof fn home_and_end_go_all_the_way(v: ListView, held: u32)
    requires
        has_cursor(v),
    ensures
        keyed(v, key::HOME, held).0.cursor == 0,
        keyed(v, key::END, held).0.cursor == v.rows.len() - 1,
{
}

/// Down goes one row further and Up one row back, unless there is none; so
/// Up undoes Down, and Down undoes Up.
pub proof fn up_and_down_go_one_row(v: ListView, held: u32)
    requires
        has_cursor(v),
    ensures
        v.cursor < v.rows.len() - 1 ==> keyed(v, key::DOWN, held).0.cursor == v.cursor + 1,
        v.cursor == v.rows.len() - 1 ==> keyed(v, key::DOWN, held).0.cursor == v.cursor,
        v.cursor > 0 ==> keyed(v, key::UP, held).0.cursor == v.cursor - 1,
        v.cursor == 0 ==> keyed(v, key::UP, held).0.cursor == 0,
        v.cursor < v.rows.len() - 1 ==> keyed(
            keyed(v, key::DOWN, held).0,
            key::UP,
            held,
        ).0.cursor == v.cursor,
        v.cursor > 0 ==> keyed(keyed(v, key::UP, held).0, key::DOWN, held).0.cursor == v.cursor,
{
}

/// A page is what the viewport shows, or one row where it shows none yet:
/// the page keys go that far, and stop at the ends.
pub proof fn a_page_is_what_the_viewport_shows(v: ListView, held: u32)
    requires
        has_cursor(v),
    ensures
        ({
            let page = if v.fits > 0 {
                v.fits
            } else {
                1
            };
            let down = keyed(v, key::PAGE_DOWN, held).0.cursor;
            let up = keyed(v, key::PAGE_UP, held).0.cursor;
            &&& v.cursor + page < v.rows.len() ==> down == v.cursor + page
            &&& v.cursor + page >= v.rows.len() ==> down == v.rows.len() - 1
            &&& v.cursor >= page ==> up == v.cursor - page
            &&& v.cursor < page ==> up == 0
        }),
{
}

/// A key that moves the cursor without Shift makes its row the whole
/// selection. With Shift every row from where the selection started up to
/// the cursor is selected, and where it started stays. Nothing else of the
/// list changes; the row is to be shown, and the app is told of it where the
/// cursor was on another one.
pub proof fn the_selection_follows_the_cursor(v: ListView, keycode: u32, held: u32)
    requires
        has_cursor(v),
        moves_cursor(keycode),
    ensures
        ({
            let (w, act) = keyed(v, keycode, held);
            &&& only_moved(v, w)
            &&& has_cursor(w)
            &&& act == (ListAct::Moved {
                to: w.cursor as usize,
                changed: w.cursor != v.cursor,
                activate: false,
            })
            &&& held & mods::MASK != mods::SHIFT ==> alone(w)
            &&& held & mods::MASK == mods::SHIFT ==> w.extend_from == v.extend_from && forall|
                i: usize,
            | #[trigger]
                w.selected.contains(i) <==> v.extend_from <= i <= w.cursor || w.cursor <= i
                    <= v.extend_from
        }),
{
}

/// Enter activates the row of the cursor and changes nothing.
pub proof fn enter_activates_the_cursor(v: ListView, held: u32)
    requires
        has_cursor(v),
    ensures
        keyed(v, key::ENTER, held) == (v, ListAct::Activate(v.cursor as usize)),
{
}

/// Ctrl and Space turn the cursor's row over and leave every other as it was;
/// twice leaves the selection as it was. The cursor stays where it is.
pub proof fn ctrl_space_turns_one_row_over(v: ListView, held: u32)
    requires
        has_cursor(v),
        held & mods::MASK == mods::CTRL,
    ensures
        ({
            let (w, act) = keyed(v, key::SPACE, held);
            &&& act == ListAct::Toggled
            &&& w == (ListView { selected: w.selected, ..v })
            &&& forall|i: usize| #[trigger]
                w.selected.contains(i) <==> (v.selected.contains(i) != (i == v.cursor))
            &&& keyed(w, key::SPACE, held).0 == v
        }),
{
    let w = keyed(v, key::SPACE, held).0;
    assert(keyed(w, key::SPACE, held).0.selected =~= v.selected);
}

/// No other key is the list's, and an empty list lets go of all but Ctrl and
/// Space.
pub proof fn other_keys_are_let_go(v: ListView, keycode: u32, held: u32)
    requires
        keycode != key::SPACE || held & mods::MASK != mods::CTRL,
        v.rows.len() == 0 || (!moves_cursor(keycode) && keycode != key::ENTER),
    ensures
        keyed(v, keycode, held) == (v, ListAct::Ignored),
{
}

// ---------------------------------------------------------------------
// clicks
// ---------------------------------------------------------------------

/// A click takes the cursor to the row under the pointer, which is then the
/// whole selection. A click beside the rows changes nothing.
pub proof fn a_click_selects_its_row(v: ListView, row: usize, now: u64)
    requires
        has_cursor(v),
    ensures
        ({
            let (w, act) = pressed(v, Some(row), now);
            &&& row < v.rows.len() ==> w.cursor == row && alone(w) && only_moved(
                ListView { last_click: w.last_click, ..v },
                w,
            )
            &&& row < v.rows.len() ==> (act matches ListAct::Moved { to, changed, .. } && to == row
                && changed == (row != v.cursor))
            &&& row >= v.rows.len() ==> (w, act) == (v, ListAct::Done)
        }),
        pressed(v, None, now) == (v, ListAct::Done),
{
}

/// The second of two clicks activates the row exactly where both are on one
/// row and less than the time of a double click apart; what happens between
/// them other than clicks does not matter. The first click on a list never
/// activates.
pub proof fn two_quick_clicks_activate(
    v: ListView,
    between: ListView,
    row: usize,
    now: u64,
    again: usize,
    later: u64,
)
    requires
        has_cursor(v),
        has_cursor(between),
        row < v.rows.len(),
        again < between.rows.len(),
        between.last_click == pressed(v, Some(row), now).0.last_click,
        now <= later,
    ensures
        pressed(between, Some(again), later).1 matches ListAct::Moved { activate, .. } && activate
            == (row == again && later - now < DOUBLE_CLICK),
        v.last_click is None ==> (pressed(v, Some(row), now).1 matches ListAct::Moved {
            activate,
            ..
        } && !activate),
{
}

// ---------------------------------------------------------------------
// typing
// ---------------------------------------------------------------------

/// What a walk over the rows from `from` finds is a row that matches, and no
/// row that it comes by before does; it finds none only where no row
/// matches.
proof fn lemma_first_match(
    names: Seq<Seq<char>>,
    prefix: Seq<char>,
    from: int,
    k: int,
)
    requires
        0 <= from <= names.len(),
        0 <= k <= names.len(),
    ensures
        match first_match(names, prefix, from, k) {
            Some(i) => exists|m: int|
                k <= m < names.len() && i == #[trigger] in_turn(names.len() as int, from, m)
                    && prefix.is_prefix_of(names[i]) && forall|j: int|
                    k <= j < m ==> !prefix.is_prefix_of(
                        names[#[trigger] in_turn(names.len() as int, from, j)],
                    ),
            None => forall|j: int|
                k <= j < names.len() ==> !prefix.is_prefix_of(
                    names[#[trigger] in_turn(names.len() as int, from, j)],
                ),
        },
    decreases names.len() - k,
{
    if k < names.len() {
        let n = names.len() as int;
        let i = in_turn(n, from, k);
        if prefix.is_prefix_of(names[i]) {
            assert(i == in_turn(n, from, k));
        } else {
            lemma_first_match(names, prefix, from, k + 1);
            if let Some(x) = first_match(names, prefix, from, k + 1) {
                let m = choose|m: int|
                    k + 1 <= m < names.len() && x == #[trigger] in_turn(n, from, m)
                        && prefix.is_prefix_of(names[x]) && forall|j: int|
                        k + 1 <= j < m ==> !prefix.is_prefix_of(
                            names[#[trigger] in_turn(n, from, j)],
                        );
                assert forall|j: int| k <= j < m implies !prefix.is_prefix_of(
                    names[#[trigger] in_turn(n, from, j)],
                ) by {}
                assert(x == in_turn(n, from, m));
            }
        }
    }
}

/// How far row `i` is from row `from`, going down and coming round.
pub open spec fn ahead(len: int, from: int, i: int) -> int {
    if i >= from {
        i - from
    } else {
        i + len - from
    }
}

/// Typing takes the cursor to a row that starts with what was typed, and no
/// row that starts with it is closer going down from the cursor and coming
/// round at the end. The row of the cursor itself comes first where something
/// was added to a prefix, and last where a new one was started.
pub proof fn typing_goes_to_the_next_match(
    v: ListView,
    typed: Seq<char>,
    names: Seq<Seq<char>>,
    now: u64,
    j: int,
)
    requires
        has_cursor(v),
        names.len() == v.rows.len(),
        0 <= j < names.len(),
    ensures
        ({
            let (w, act) = jumped(v, typed, names, now);
            let n = names.len() as int;
            let from = if prefix_is_stale(v, now) {
                v.cursor + 1
            } else {
                v.cursor
            };
            &&& act is Ignored ==> !w.prefix.is_prefix_of(names[j]) && only_moved(
                ListView { prefix: w.prefix, prefix_at: w.prefix_at, ..v },
                w,
            ) && w.cursor == v.cursor && w.selected == v.selected
            &&& act !is Ignored ==> w.prefix.is_prefix_of(names[w.cursor]) && alone(w) && act == (
            ListAct::Moved {
                to: w.cursor as usize,
                changed: w.cursor != v.cursor,
                activate: false,
            })
            &&& w.prefix.is_prefix_of(names[j]) ==> act !is Ignored && ahead(n, from, w.cursor)
                <= ahead(n, from, j)
        }),
{
    let n = names.len() as int;
    let (w, act) = jumped(v, typed, names, now);
    let from = if prefix_is_stale(v, now) {
        v.cursor + 1
    } else {
        v.cursor
    };
    lemma_first_match(names, w.prefix, from, 0);
    let d = ahead(n, from, j);
    if 0 <= d < n {
        assert(in_turn(n, from, d) == j);
    }
}

/// What is typed soon after something else is added to it, and what is typed
/// later starts anew: two texts one after the other search for both together
/// where less than the gap lies between them.
pub proof fn quick_typing_adds_up(
    v: ListView,
    first: Seq<char>,
    second: Seq<char>,
    names: Seq<Seq<char>>,
    now: u64,
    later: u64,
)
    requires
        now <= later,
    ensures
        ({
            let w = jumped(v, first, names, now).0;
            let x = jumped(w, second, names, later).0;
            &&& w.prefix_at == Some(now)
            &&& x.prefix == (if later - now > TYPE_AHEAD_GAP {
                second
            } else {
                w.prefix + second
            })
            &&& v.prefix_at is None ==> w.prefix == first
        }),
{
}

// ---------------------------------------------------------------------
// actions and the app
// ---------------------------------------------------------------------

/// A script that names a row selects it or activates it, and a row that is
/// not there is refused with nothing changed.
pub proof fn an_action_reaches_the_row_it_names(v: ListView, row: nat, activate: bool)
    requires
        has_cursor(v),
        row <= usize::MAX,
    ensures
        ({
            let action = if activate {
                "activate"@
            } else {
                "select"@
            };
            let (w, act) = acted(v, action, Some(dec(row)));
            &&& row < v.rows.len() ==> w.cursor == row && alone(w) && only_moved(v, w) && act == (
            ListAct::Moved { to: row as usize, changed: row != v.cursor, activate })
            &&& row >= v.rows.len() ==> (w, act) == (v, ListAct::Ignored)
        }),
        acted(v, "activate"@, None) == (v, ListAct::Activate(v.cursor as usize)),
        acted(v, "select"@, None) == (v, ListAct::Ignored),
{
    reveal_strlit("activate");
    reveal_strlit("select");
    reveal_strlit("click");
    let s = dec(row);
    crate::chars::lemma_dec(row);
    crate::chars::decimal_round_trip(row, usize::MAX as nat);
    assert(crate::chars::is_digit(s[0]));
    assert(crate::chars::is_digit(s[s.len() - 1]));
    assert(crate::chars::trim_start(s) == s);
    assert(crate::chars::trim_end(s) == s);
    assert("activate"@.len() == 8 && "select"@.len() == 6 && "click"@.len() == 5);
}

/// The same by the other names that these actions go by.
pub proof fn actions_have_other_names(v: ListView, arg: Option<Seq<char>>)
    ensures
        acted(v, "click"@, arg) == acted(v, "activate"@, arg),
        acted(v, "set_value"@, arg) == acted(v, "select"@, arg),
        acted(v, "set_cursor"@, arg) == acted(v, "select"@, arg),
{
    reveal_strlit("activate");
    reveal_strlit("click");
    reveal_strlit("select");
    reveal_strlit("set_value");
    reveal_strlit("set_cursor");
    assert("activate"@.len() == 8 && "select"@.len() == 6 && "click"@.len() == 5);
    assert("set_value"@.len() == 9 && "set_cursor"@.len() == 10);
}

/// A row kept on the list: an app or a key that asks for one past the end
/// gets the last, and any other row is taken as it is.
pub proof fn a_row_past_the_end_is_the_last(v: ListView, index: int)
    requires
        has_cursor(v),
        0 <= index,
    ensures
        ({
            let w = moved_to(v, index, false);
            &&& index < v.rows.len() ==> w.cursor == index
            &&& index >= v.rows.len() ==> w.cursor == v.rows.len() - 1
            &&& alone(w)
            &&& only_moved(v, w)
        }),
{
}

/// Replacing the rows keeps the cursor where it is if that row is there still
/// and takes it to the last otherwise; keeps exactly those rows selected
/// that are there still; and makes every row be drawn again, since no row
/// that was drawn before is of the new generation.
pub proof fn replacing_keeps_what_is_still_there(v: ListView, rows: Seq<RowView>)
    requires
        0 <= v.cursor,
    ensures
        ({
            let w = replaced(v, rows);
            &&& w.rows == rows
            &&& v.cursor < rows.len() ==> w.cursor == v.cursor
            &&& v.cursor >= rows.len() && rows.len() > 0 ==> w.cursor == rows.len() - 1
            &&& rows.len() == 0 ==> w.cursor == 0
            &&& w.extend_from == w.cursor
            &&& forall|i: usize| #[trigger]
                w.selected.contains(i) <==> v.selected.contains(i) && i < rows.len()
            &&& w.generation != v.generation
            &&& w.first == v.first && w.fits == v.fits && w.ring == v.ring
        }),
        forall|i: int| redraw(replaced(v, rows), i) is Everything,
{
}

// ---------------------------------------------------------------------
// the screen
// ---------------------------------------------------------------------

/// The rows that the viewport shows are those from the first on, as many as
/// fit, and none that is not there.
pub proof fn the_viewport_shows_what_fits(v: ListView, i: int)
    requires
        0 <= v.first,
        0 <= v.fits,
    ensures
        first_shown(v) <= i < view_end(v) <==> v.first <= i < v.first + v.fits && i < v.rows.len(),
{
}

/// A paint draws every row that the viewport shows, each row once and in
/// order, as selected exactly where it is.
pub proof fn a_paint_draws_what_is_shown(v: ListView, i: int)
    requires
        laid_out(v),
        0 <= i < v.rows.len(),
        v.first <= i < v.first + v.fits,
    ensures
        exists|k: int| 0 <= k < plan(v).len() && (#[trigger] plan(v)[k]).row == i,
        forall|k: int|
            0 <= k < plan(v).len() ==> (#[trigger] plan(v)[k]).row == plan(v)[0].row + k
                && plan(v)[k].row < v.rows.len() && plan(v)[k].selected == v.selected.contains(
                plan(v)[k].row,
            ),
        plan(v).len() <= v.ring,
{
    let k = i - wanted_anchor(v);
    assert(0 <= wanted_anchor(v) <= i < window_end(v));
    assert(plan(v)[k].row == i);
}

/// Whether a row that the viewport shows is materialised.
pub open spec fn is_held(v: ListView, i: int) -> bool {
    v.anchor <= i < v.anchor + v.ring
}

/// The window covers the viewport exactly where every row that is shown is
/// in it.
pub proof fn covering_is_holding_every_row(v: ListView)
    requires
        0 <= v.first < v.rows.len(),
        0 < v.fits,
        0 < v.ring,
    ensures
        covers_view(v) <==> forall|i: int|
            v.first <= i < v.first + v.fits && i < v.rows.len() ==> #[trigger] is_held(v, i),
{
    let last = view_end(v) - 1;
    assert(is_held(v, v.first) && is_held(v, last) ==> covers_view(v));
}

/// A row that was not drawn before is drawn whole, and so is every row once
/// something that all of them depend on changed.
pub proof fn a_new_row_is_drawn_whole(v: ListView, later: ListView, i: int)
    requires
        laid_out(v),
        later == (ListView { first: later.first, ..painted(v) }),
        0 <= i < v.rows.len(),
        !(wanted_anchor(v) <= i < window_end(v)),
    ensures
        redraw(later, i) is Everything,
        redraw(ListView { dirty_rows: true, ..v }, i) is Everything,
{
}

/// A row reads its text first; what is behind it is the detail, behind a tab,
/// and nothing where it has none.
pub proof fn a_row_reads_its_text_and_detail(r: RowView)
    ensures
        r.text.is_prefix_of(row_reads(r)),
        r.detail.len() == 0 ==> row_reads(r) == r.text,
        r.detail.len() > 0 ==> row_reads(r).len() == r.text.len() + 1 + r.detail.len() && row_reads(
            r,
        )[r.text.len() as int] == '\t' && row_reads(r).skip((r.text.len() + 1) as int) == r.detail,
{
    reveal_strlit("\t");
    assert(row_reads(r).take(r.text.len() as int) =~= r.text);
    if r.detail.len() > 0 {
        assert(row_reads(r).skip((r.text.len() + 1) as int) =~= r.detail);
    }
}

/// A text types something unless it is empty or holds a control character,
/// wherever that stands in it.
pub proof fn a_control_character_types_nothing(a: Seq<char>, c: char, b: Seq<char>)
    ensures
        (c as u32) < 32 || 127 <= (c as u32) < 160 ==> nothing_typed(a + seq![c] + b),
        (forall|i: int| 0 <= i < a.len() ==> ' ' <= #[trigger] a[i] <= '~') ==> (nothing_typed(
            a,
        ) <==> a.len() == 0),
{
    let all = a + seq![c] + b;
    if (c as u32) < 32 || 127 <= (c as u32) < 160 {
        assert(is_control(all[a.len() as int]));
    }
}

proof fn lemma_split_joined(parts: Seq<Seq<char>>, c: char)
    requires
        parts.len() > 0,
        forall|i: int| 0 <= i < parts.len() ==> lacks(#[trigger] parts[i], c),
    ensures
        split(joined(parts, c), c) == parts,
    decreases parts.len(),
{
    let last = parts.last();
    assert(lacks(parts[parts.len() - 1], c));
    if parts.len() == 1 {
        a_piece_more_is_the_last(Seq::empty(), c, last);
        assert(parts =~= seq![last]);
    } else {
        let head = parts.drop_last();
        assert forall|i: int| 0 <= i < head.len() implies lacks(#[trigger] head[i], c) by {
            assert(head[i] == parts[i]);
        }
        lemma_split_joined(head, c);
        lemma_joined_push(head, last, c);
        assert(head.push(last) =~= parts);
        a_piece_more_is_the_last(joined(head, c), c, last);
    }
}

/// What a list reads as has a line for each row it shows, from the first to
/// the last, where the rows hold no line breaks themselves.
pub proof fn a_list_reads_row_by_row(v: ListView)
    requires
        first_shown(v) < view_end(v),
        forall|i: int| 0 <= i < v.rows.len() ==> lacks(row_reads(#[trigger] v.rows[i]), '\n'),
        0 <= v.first,
    ensures
        ({
            let said = split(list_reads(v), '\n');
            &&& said.len() == view_end(v) - first_shown(v)
            &&& forall|k: int|
                0 <= k < said.len() ==> #[trigger] said[k] == row_reads(v.rows[first_shown(v) + k])
        }),
{
    let n = (view_end(v) - first_shown(v)) as nat;
    let parts = Seq::new(n, |k: int| row_reads(v.rows[first_shown(v) + k]));
    assert forall|i: int| 0 <= i < parts.len() implies lacks(#[trigger] parts[i], '\n') by {
        assert(lacks(row_reads(v.rows[first_shown(v) + i]), '\n'));
    }
    lemma_split_joined(parts, '\n');
}

/// A paint draws as many rows as there are slots for, and all of them where
/// there are fewer.
pub proof fn a_paint_draws_as_many_rows_as_it_can(v: ListView)
    requires
        laid_out(v),
    ensures
        plan(v).len() == (if v.ring < v.rows.len() {
            v.ring
        } else {
            v.rows.len() as int
        }),
        v.rows.len() <= v.ring ==> wanted_anchor(v) == 0,
{
}

/// What was drawn for another row, or for the rows of another time, is of no
/// use: the row is drawn whole.
pub proof fn what_was_drawn_for_another_is_of_no_use(v: ListView, i: int)
    requires
        laid_out(v),
        0 <= i,
        v.cache[i % v.ring] matches Some(c) ==> c.row != i || c.generation != v.generation,
    ensures
        redraw(v, i) is Everything,
{
}

} // verus!
