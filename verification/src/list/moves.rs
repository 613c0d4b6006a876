//! What moves the cursor and the selection of a [`List`]: keys, clicks,
//! type-ahead, actions, and an app that replaces the rows.

use vstd::prelude::*;

use crate::chars::{chars_of, parse_dec, parse_decimal, text_eq, trim, trimmed};
use crate::event::{key, mods, KeyEvent};
use crate::introspect::sockets::str_view;
use crate::introspect::text::strings_view;
use crate::list::{
    ascending, least, on_list, List, ListModel, ListView, RowView, DOUBLE_CLICK, TYPE_AHEAD_GAP,
};
use crate::text::shaping::is_control;

verus! {

/// What is to be done after something happened to a list.
#[derive(Debug, Clone, Copy, PartialEq, Eq, Structural)]
pub enum ListAct {
    /// It was not for the list.
    Ignored,
    /// Nothing more is to be done.
    Done,
    /// The row is to be activated.
    Activate(usize),
    /// A row's selection was turned over: the list is to be painted.
    Toggled,
    /// The cursor is on a row, which is to be scrolled into view and
    /// painted.
    Moved {
        /// The row.
        to: usize,
        /// Whether the cursor was on another row before, which the app is
        /// told.
        changed: bool,
        /// Whether the row is to be activated on top of that.
        activate: bool,
    },
    /// The list is to be scrolled by the number in the argument, or to it.
    Scroll {
        /// Whether the number is a distance.
        relative: bool,
    },
}

// ---------------------------------------------------------------------
// the cursor and the selection
// ---------------------------------------------------------------------

/// The larger of two.
pub open spec fn most(a: int, b: int) -> int {
    if a < b {
        b
    } else {
        a
    }
}

/// Every row from one to another, both of them too.
pub open spec fn span(lo: int, hi: int) -> Set<usize> {
    Set::new(|i: usize| lo <= i <= hi)
}

/// The list with the cursor on a row, kept on the list. The row is the whole
/// selection, unless that is extended to it from where it started.
pub open spec fn moved_to(v: ListView, index: int, extend: bool) -> ListView {
    let at = on_list(v, index);
    if v.rows.len() == 0 {
        v
    } else if extend {
        ListView {
            cursor: at,
            selected: span(least(v.extend_from, at), most(v.extend_from, at)),
            ..v
        }
    } else {
        ListView { cursor: at, extend_from: at, selected: set![at as usize], ..v }
    }
}

/// What moving the cursor leaves, and what is to be done about it.
pub open spec fn move_made(v: ListView, index: int, extend: bool, activate: bool) -> (
    ListView,
    ListAct,
) {
    let at = on_list(v, index);
    if v.rows.len() == 0 {
        (v, ListAct::Done)
    } else {
        (
            moved_to(v, index, extend),
            ListAct::Moved { to: at as usize, changed: at != v.cursor, activate },
        )
    }
}

/// Where a key takes the cursor.
pub open spec fn key_target(v: ListView, keycode: u32) -> Option<int> {
    let page = most(v.fits, 1);
    let last = most(v.rows.len() - 1, 0);
    if keycode == key::DOWN {
        Some(least(v.cursor + 1, last))
    } else if keycode == key::UP {
        Some(most(v.cursor - 1, 0))
    } else if keycode == key::PAGE_DOWN {
        Some(least(v.cursor + page, last))
    } else if keycode == key::PAGE_UP {
        Some(most(v.cursor - page, 0))
    } else if keycode == key::HOME {
        Some(0)
    } else if keycode == key::END {
        Some(last)
    } else {
        None
    }
}

/// The selection with one row turned over.
pub open spec fn toggled(s: Set<usize>, i: usize) -> Set<usize> {
    if s.contains(i) {
        s.remove(i)
    } else {
        s.insert(i)
    }
}

/// What a key does to a list.
pub open spec fn keyed(v: ListView, keycode: u32, held: u32) -> (ListView, ListAct) {
    if keycode == key::ENTER {
        (v, if v.rows.len() == 0 {
            ListAct::Ignored
        } else {
            ListAct::Activate(v.cursor as usize)
        })
    } else if keycode == key::SPACE && held & mods::MASK == mods::CTRL {
        (
            ListView { selected: toggled(v.selected, v.cursor as usize), ..v },
            ListAct::Toggled,
        )
    } else {
        match key_target(v, keycode) {
            Some(to) => if v.rows.len() == 0 {
                (v, ListAct::Ignored)
            } else {
                move_made(v, to, held & mods::MASK == mods::SHIFT, false)
            },
            None => (v, ListAct::Ignored),
        }
    }
}

/// What lies between two times, nothing where they are the wrong way round.
pub open spec fn elapsed(now: u64, at: u64) -> int {
    most(now - at, 0)
}

/// What a click does to a list. The row is the one under the pointer, if
/// rows have a height yet.
pub open spec fn pressed(v: ListView, row: Option<usize>, now: u64) -> (ListView, ListAct) {
    match row {
        None => (v, ListAct::Done),
        Some(r) => if r >= v.rows.len() {
            (v, ListAct::Done)
        } else {
            let again = match v.last_click {
                Some((before, at)) => before == r && elapsed(now, at) < DOUBLE_CLICK,
                None => false,
            };
            move_made(
                ListView { last_click: Some((r, now)), ..v },
                r as int,
                false,
                again,
            )
        },
    }
}

/// What is left of a list whose rows were replaced. What was selected stays
/// selected where the row is still there.
pub open spec fn replaced(v: ListView, rows: Seq<RowView>) -> ListView {
    let cursor = least(v.cursor, most(rows.len() - 1, 0));
    ListView {
        rows,
        generation: if v.generation == u64::MAX {
            0
        } else {
            (v.generation + 1) as u64
        },
        dirty_rows: true,
        cursor,
        selected: v.selected.filter(|i: usize| i < rows.len()),
        extend_from: cursor,
        ..v
    }
}

// ---------------------------------------------------------------------
// type-ahead
// ---------------------------------------------------------------------

/// A text in lower case, by Unicode's rules.
pub uninterp spec fn lowercase_text(s: Seq<char>) -> Seq<char>;

/// Calls `str::to_lowercase`. Which text that gives is Unicode's to say:
/// only this is claimed of it, that it depends on the given text alone.
#[verifier::external_body]
fn to_lowercase(s: &str) -> (out: String)
    ensures
        out@ == lowercase_text(s@),
{
    s.to_lowercase()
}

/// What the rows say, in lower case.
pub open spec fn lowercase_rows(rows: Seq<RowView>) -> Seq<Seq<char>> {
    rows.map_values(|r: RowView| lowercase_text(r.text))
}

/// Whether nothing that can be searched for was typed.
pub open spec fn nothing_typed(text: Seq<char>) -> bool {
    text.len() == 0 || exists|i: int| 0 <= i < text.len() && is_control(#[trigger] text[i])
}

/// Whether what was typed before is too old to be added to.
pub open spec fn prefix_is_stale(v: ListView, now: u64) -> bool {
    match v.prefix_at {
        Some(at) => elapsed(now, at) > TYPE_AHEAD_GAP,
        None => true,
    }
}

/// The `k`th row of a walk over all of them that starts at one and comes
/// round.
pub open spec fn in_turn(len: int, from: int, k: int) -> int {
    if from + k < len {
        from + k
    } else {
        from + k - len
    }
}

/// The first row of such a walk, from its `k`th on, whose name starts with
/// the prefix.
pub open spec fn first_match(
    names: Seq<Seq<char>>,
    prefix: Seq<char>,
    from: int,
    k: int,
) -> Option<int>
    decreases names.len() - k,
{
    if k < 0 || k >= names.len() {
        None
    } else {
        let i = in_turn(names.len() as int, from, k);
        if prefix.is_prefix_of(names[i]) {
            Some(i)
        } else {
            first_match(names, prefix, from, k + 1)
        }
    }
}

/// What typing a text that reads `typed` in lower case does to a list whose
/// rows read `names` in lower case.
///
/// The search starts behind the cursor where a new prefix was started, so
/// that typing the same letter again walks over the rows that match.
pub open spec fn jumped(v: ListView, typed: Seq<char>, names: Seq<Seq<char>>, now: u64) -> (
    ListView,
    ListAct,
) {
    let stale = prefix_is_stale(v, now);
    let prefix = if stale {
        typed
    } else {
        v.prefix + typed
    };
    let from = if stale {
        v.cursor + 1
    } else {
        v.cursor
    };
    let noted = ListView { prefix, prefix_at: Some(now), ..v };
    match first_match(names, prefix, from, 0) {
        Some(i) => move_made(noted, i, false, false),
        None => (noted, ListAct::Ignored),
    }
}

// ---------------------------------------------------------------------
// actions
// ---------------------------------------------------------------------

/// The row that an argument names.
pub open spec fn row_named(arg: Option<Seq<char>>) -> Option<nat> {
    match arg {
        Some(a) => parse_dec(trim(a), usize::MAX as nat),
        None => None,
    }
}

/// What an action does to a list. Whether the argument of a scroll is a
/// number is the caller's to find out.
pub open spec fn acted(v: ListView, action: Seq<char>, arg: Option<Seq<char>>) -> (
    ListView,
    ListAct,
) {
    let row = row_named(arg);
    if action == "activate"@ || action == "click"@ {
        match row {
            Some(i) => if i >= v.rows.len() {
                (v, ListAct::Ignored)
            } else {
                move_made(v, i as int, false, true)
            },
            None => if v.cursor >= v.rows.len() {
                (v, ListAct::Ignored)
            } else {
                (v, ListAct::Activate(v.cursor as usize))
            },
        }
    } else if action == "select"@ || action == "set_value"@ || action == "set_cursor"@ {
        match row {
            Some(i) => if i >= v.rows.len() {
                (v, ListAct::Ignored)
            } else {
                move_made(v, i as int, false, false)
            },
            None => (v, ListAct::Ignored),
        }
    } else if action == "scroll_to"@ || action == "scroll_by"@ {
        (v, if arg is None {
            ListAct::Ignored
        } else {
            ListAct::Scroll { relative: action == "scroll_by"@ }
        })
    } else {
        (v, ListAct::Ignored)
    }
}

// ---------------------------------------------------------------------
// ascending runs of rows
// ---------------------------------------------------------------------

/// Every row from one to another, both of them too, in order.
fn rows_between(lo: usize, hi: usize) -> (out: Vec<usize>)
    requires
        lo <= hi < usize::MAX,
    ensures
        ascending(out@),
        out@.to_set() == span(lo as int, hi as int),
{
    let mut out: Vec<usize> = Vec::new();
    let mut i: usize = lo;
    while i <= hi
        invariant
            lo <= i <= hi + 1,
            hi < usize::MAX,
            out@.len() == i - lo,
            forall|k: int| 0 <= k < out@.len() ==> #[trigger] out@[k] == lo + k,
        decreases hi + 1 - i,
    {
        out.push(i);
        i += 1;
    }
    assert forall|x: usize| span(lo as int, hi as int).contains(x) implies out@.contains(x) by {
        assert(out@[x - lo] == x);
    }
    assert(out@.to_set() =~= span(lo as int, hi as int));
    out
}

/// The rows with one turned over.
fn toggle(s: &Vec<usize>, x: usize) -> (out: Vec<usize>)
    requires
        ascending(s@),
    ensures
        ascending(out@),
        out@.to_set() == toggled(s@.to_set(), x),
{
    let mut out: Vec<usize> = Vec::new();
    let mut i: usize = 0;
    while i < s.len() && s[i] < x
        invariant
            i <= s.len(),
            out@ == s@.take(i as int),
            forall|k: int| 0 <= k < i ==> s@[k] < x,
        decreases s.len() - i,
    {
        out.push(s[i]);
        i += 1;
        assert(out@ =~= s@.take(i as int));
    }
    let ghost low = i as int;
    let here: bool = i < s.len() && s[i] == x;
    if here {
        i += 1;
    } else {
        out.push(x);
    }
    let ghost head = out@;
    let ghost from = i as int;
    while i < s.len()
        invariant
            0 <= from <= i <= s.len(),
            out@ == head + s@.subrange(from, i as int),
        decreases s.len() - i,
    {
        out.push(s[i]);
        i += 1;
        assert(out@ =~= head + s@.subrange(from, i as int));
    }
    proof {
        let all = s@;
        let n = all.len() as int;
        assert(out@ == head + all.subrange(from, n));
        assert(head == (if here { all.take(low) } else { all.take(low).push(x) }));
        assert forall|v: usize| out@.contains(v) implies toggled(all.to_set(), x).contains(v) by {
            let k = choose|k: int| 0 <= k < out@.len() && out@[k] == v;
            if k >= head.len() {
                assert(v == all[from + k - head.len()]);
            } else if k < low {
                assert(v == all[k]);
            }
        }
        assert forall|v: usize| toggled(all.to_set(), x).contains(v) implies out@.contains(v) by {
            if v == x {
                assert(out@[low] == x);
            } else {
                let k = choose|k: int| 0 <= k < all.len() && all[k] == v;
                if k < low {
                    assert(out@[k] == v);
                } else {
                    assert(k >= from);
                    assert(out@[head.len() + k - from] == v);
                }
            }
        }
        assert(out@.to_set() =~= toggled(all.to_set(), x));
    }
    out
}

/// The rows that are below `n`.
fn rows_below(s: &Vec<usize>, n: usize) -> (out: Vec<usize>)
    requires
        ascending(s@),
    ensures
        ascending(out@),
        out@.to_set() == s@.to_set().filter(|i: usize| i < n),
{
    let mut out: Vec<usize> = Vec::new();
    let mut i: usize = 0;
    while i < s.len() && s[i] < n
        invariant
            i <= s.len(),
            out@ == s@.take(i as int),
            forall|k: int| 0 <= k < i ==> s@[k] < n,
        decreases s.len() - i,
    {
        out.push(s[i]);
        i += 1;
        assert(out@ =~= s@.take(i as int));
    }
    proof {
        let kept = s@.to_set().filter(|i: usize| i < n);
        assert forall|v: usize| kept.contains(v) implies out@.contains(v) by {
            let k = choose|k: int| 0 <= k < s@.len() && s@[k] == v;
            assert(k < i);
            assert(out@[k] == v);
        }
        assert forall|v: usize| out@.contains(v) implies kept.contains(v) by {
            let k = choose|k: int| 0 <= k < out@.len() && out@[k] == v;
            assert(s@[k] == v);
        }
        assert(out@.to_set() =~= kept);
    }
    out
}

/// Whether a text starts with another.
fn begins_with(name: &[char], prefix: &[char]) -> (r: bool)
    ensures
        r == prefix@.is_prefix_of(name@),
{
    if prefix.len() > name.len() {
        return false;
    }
    let mut i: usize = 0;
    while i < prefix.len()
        invariant
            i <= prefix.len() <= name.len(),
            forall|k: int| 0 <= k < i ==> prefix@[k] == name@[k],
        decreases prefix.len() - i,
    {
        if prefix[i] != name[i] {
            assert(prefix@[i as int] != name@.subrange(0, prefix@.len() as int)[i as int]);
            return false;
        }
        i += 1;
    }
    assert(prefix@ =~= name@.subrange(0, prefix@.len() as int));
    true
}

/// The first row of a walk that starts at one and comes round whose name
/// starts with the prefix.
fn find_row(names: &Vec<String>, prefix: &[char], from: usize) -> (hit: Option<usize>)
    requires
        from <= names@.len(),
    ensures
        match hit {
            Some(i) => i < names@.len() && first_match(
                strings_view(names@),
                prefix@,
                from as int,
                0,
            ) == Some(i as int),
            None => first_match(strings_view(names@), prefix@, from as int, 0) is None,
        },
{
    let len: usize = names.len();
    let ghost all = strings_view(names@);
    let ghost found = first_match(all, prefix@, from as int, 0);
    let mut k: usize = 0;
    while k < len
        invariant
            k <= len,
            len == names@.len(),
            from <= len,
            all == strings_view(names@),
            found == first_match(all, prefix@, from as int, 0),
            found == first_match(all, prefix@, from as int, k as int),
        decreases len - k,
    {
        let i: usize = if k < len - from {
            from + k
        } else {
            k - (len - from)
        };
        assert(i == in_turn(len as int, from as int, k as int));
        let name = chars_of(names[i].as_str());
        assert(all[i as int] == name@);
        if begins_with(name.as_slice(), prefix) {
            return Some(i);
        }
        k += 1;
    }
    None
}

fn control(c: char) -> (r: bool)
    ensures
        r == is_control(c),
{
    c <= '\u{1f}' || ('\u{7f}' <= c && c <= '\u{9f}')
}

fn after(now: u64, at: u64) -> (n: u64)
    ensures
        n == elapsed(now, at),
{
    if now > at {
        now - at
    } else {
        0
    }
}

// ---------------------------------------------------------------------
// the list
// ---------------------------------------------------------------------

impl<M: ListModel> List<M> {
    /// Move the cursor to a row, kept on the list, and replace the selection
    /// with it, or extend the selection to it.
    pub fn move_cursor(&mut self, index: usize, extend: bool) -> (act: ListAct)
        requires
            old(self).wf(),
        ensures
            final(self).wf(),
            (final(self)@, act) == move_made(old(self)@, index as int, extend, false),
    {
        let len: usize = self.model.len();
        if len == 0 {
            return ListAct::Done;
        }
        let at: usize = if index < len - 1 {
            index
        } else {
            len - 1
        };
        let changed: bool = at != self.cursor;
        self.cursor = at;
        if extend {
            self.selected = if self.extend_from <= at {
                rows_between(self.extend_from, at)
            } else {
                rows_between(at, self.extend_from)
            };
        } else {
            self.extend_from = at;
            self.selected = rows_between(at, at);
            assert(span(at as int, at as int) =~= set![at]);
        }
        ListAct::Moved { to: at, changed, activate: false }
    }

    /// Handle one key press.
    pub fn key(&mut self, k: &KeyEvent) -> (act: ListAct)
        requires
            old(self).wf(),
        ensures
            final(self).wf(),
            (final(self)@, act) == keyed(old(self)@, k.keycode, k.mods),
    {
        let held: u32 = k.mods & mods::MASK;
        let len: usize = self.model.len();
        if k.keycode == key::ENTER {
            return if len == 0 {
                ListAct::Ignored
            } else {
                ListAct::Activate(self.cursor)
            };
        }
        if k.keycode == key::SPACE && held == mods::CTRL {
            self.selected = toggle(&self.selected, self.cursor);
            return ListAct::Toggled;
        }
        let page: usize = if self.fits > 1 {
            self.fits
        } else {
            1
        };
        let last: usize = if len > 0 {
            len - 1
        } else {
            0
        };
        let to: usize = if k.keycode == key::DOWN {
            down(self.cursor, 1, last)
        } else if k.keycode == key::UP {
            up(self.cursor, 1)
        } else if k.keycode == key::PAGE_DOWN {
            down(self.cursor, page, last)
        } else if k.keycode == key::PAGE_UP {
            up(self.cursor, page)
        } else if k.keycode == key::HOME {
            0
        } else if k.keycode == key::END {
            last
        } else {
            return ListAct::Ignored;
        };
        if len == 0 {
            return ListAct::Ignored;
        }
        self.move_cursor(to, held == mods::SHIFT)
    }

    /// Handle a click at a time on the row under the pointer, if rows have a
    /// height yet: the row is selected, and activated by the second click.
    /// The list asks for the focus in any case.
    pub fn press(&mut self, row: Option<usize>, now: u64) -> (act: ListAct)
        requires
            old(self).wf(),
        ensures
            final(self).wf(),
            (final(self)@, act) == pressed(old(self)@, row, now),
    {
        let r: usize = match row {
            Some(r) => r,
            None => return ListAct::Done,
        };
        if r >= self.model.len() {
            return ListAct::Done;
        }
        let again: bool = match self.last_click {
            Some((before, at)) => before == r && after(now, at) < DOUBLE_CLICK,
            None => false,
        };
        self.last_click = Some((r, now));
        match self.move_cursor(r, false) {
            ListAct::Moved { to, changed, activate } => ListAct::Moved {
                to,
                changed,
                activate: again,
            },
            other => other,
        }
    }

    /// Add a text, already in lower case, to the prefix and jump to the
    /// first row whose name, already in lower case, starts with it.
    pub fn jump(&mut self, typed: &str, names: &Vec<String>, now: u64) -> (act: ListAct)
        requires
            old(self).wf(),
            names@.len() == old(self)@.rows.len(),
        ensures
            final(self).wf(),
            (final(self)@, act) == jumped(old(self)@, typed@, strings_view(names@), now),
    {
        let stale: bool = match self.prefix_at {
            Some(at) => after(now, at) > TYPE_AHEAD_GAP,
            None => true,
        };
        if stale {
            self.prefix = String::new();
        }
        self.prefix.append(typed);
        assert(Seq::<char>::empty() + typed@ =~= typed@);
        self.prefix_at = Some(now);
        let prefix = chars_of(self.prefix.as_str());
        let len: usize = names.len();
        if len == 0 {
            return ListAct::Ignored;
        }
        let from: usize = if stale {
            self.cursor + 1
        } else {
            self.cursor
        };
        let hit: Option<usize> = find_row(names, prefix.as_slice(), from);
        match hit {
            Some(i) => self.move_cursor(i, false),
            None => ListAct::Ignored,
        }
    }

    /// Add what was typed to the prefix and jump to the first row that
    /// starts with it, whatever the case. The prefix expires by the time
    /// that passed until the next key, so that nothing has to wake up to
    /// clear it.
    pub fn type_ahead(&mut self, text: &str, now: u64) -> (act: ListAct)
        requires
            old(self).wf(),
        ensures
            final(self).wf(),
            (final(self)@, act) == (if nothing_typed(text@) {
                (old(self)@, ListAct::Ignored)
            } else {
                jumped(old(self)@, lowercase_text(text@), lowercase_rows(old(self)@.rows), now)
            }),
    {
        let typed = chars_of(text);
        if typed.len() == 0 {
            return ListAct::Ignored;
        }
        let mut i: usize = 0;
        while i < typed.len()
            invariant
                i <= typed.len(),
                typed@ == text@,
                *self == *old(self),
                old(self).wf(),
                forall|k: int| 0 <= k < i ==> !is_control(#[trigger] text@[k]),
            decreases typed.len() - i,
        {
            if control(typed[i]) {
                assert(is_control(text@[i as int]));
                return ListAct::Ignored;
            }
            i += 1;
        }
        let names = self.lowercase_names();
        let lowered = to_lowercase(text);
        assert(strings_view(names@).len() == names@.len());
        self.jump(lowered.as_str(), &names, now)
    }

    fn lowercase_names(&self) -> (names: Vec<String>)
        ensures
            strings_view(names@) == lowercase_rows(self@.rows),
    {
        let len: usize = self.model.len();
        let mut names: Vec<String> = Vec::new();
        let mut i: usize = 0;
        while i < len
            invariant
                i <= len,
                len == self@.rows.len(),
                names@.len() == i,
                forall|k: int|
                    0 <= k < i ==> (#[trigger] names@[k])@ == lowercase_text(self@.rows[k].text),
            decreases len - i,
        {
            let row = self.model.row(i);
            names.push(to_lowercase(row.text.as_str()));
            i += 1;
        }
        assert(strings_view(names@) =~= lowercase_rows(self@.rows));
        names
    }

    /// Carry out an action. Whether the argument of a scroll is a number is
    /// the caller's to find out.
    pub fn action(&mut self, action: &str, arg: Option<&str>) -> (act: ListAct)
        requires
            old(self).wf(),
        ensures
            final(self).wf(),
            (final(self)@, act) == acted(old(self)@, action@, str_view(arg)),
    {
        let row: Option<u64> = match arg {
            Some(a) => parse_decimal(
                trimmed(chars_of(a).as_slice()).as_slice(),
                usize::MAX as u64,
            ),
            None => None,
        };
        let len: usize = self.model.len();
        if text_eq(action, "activate") || text_eq(action, "click") {
            match row {
                Some(i) => {
                    let i: usize = i as usize;
                    if i >= len {
                        return ListAct::Ignored;
                    }
                    match self.move_cursor(i, false) {
                        ListAct::Moved { to, changed, activate } => ListAct::Moved {
                            to,
                            changed,
                            activate: true,
                        },
                        other => other,
                    }
                },
                None => if self.cursor >= len {
                    ListAct::Ignored
                } else {
                    ListAct::Activate(self.cursor)
                },
            }
        } else if text_eq(action, "select") || text_eq(action, "set_value") || text_eq(
            action,
            "set_cursor",
        ) {
            match row {
                Some(i) => {
                    let i: usize = i as usize;
                    if i >= len {
                        return ListAct::Ignored;
                    }
                    self.move_cursor(i, false)
                },
                None => ListAct::Ignored,
            }
        } else if text_eq(action, "scroll_to") {
            proof {
                reveal_strlit("scroll_to");
                reveal_strlit("scroll_by");
                assert("scroll_to"@[7] == 't' && "scroll_by"@[7] == 'b');
            }
            if arg.is_none() {
                ListAct::Ignored
            } else {
                ListAct::Scroll { relative: false }
            }
        } else if text_eq(action, "scroll_by") {
            if arg.is_none() {
                ListAct::Ignored
            } else {
                ListAct::Scroll { relative: true }
            }
        } else {
            ListAct::Ignored
        }
    }

    /// Replace the rows. A new generation makes every materialised row
    /// stale at once.
    pub fn set_model(&mut self, model: M)
        requires
            old(self).wf(),
        ensures
            final(self).wf(),
            final(self)@ == replaced(old(self)@, model.rows()),
    {
        let len: usize = model.len();
        self.model = model;
        self.generation = self.generation.wrapping_add(1);
        self.dirty_rows = true;
        let last: usize = if len > 0 {
            len - 1
        } else {
            0
        };
        if self.cursor > last {
            self.cursor = last;
        }
        self.selected = rows_below(&self.selected, len);
        self.extend_from = self.cursor;
        assert(self@.selected =~= replaced(old(self)@, model.rows()).selected);
    }

    /// Move the cursor and make it the whole selection without telling the
    /// app, which knows. What comes back is the row to be scrolled into
    /// view.
    pub fn select(&mut self, index: usize) -> (shown: Option<usize>)
        requires
            old(self).wf(),
        ensures
            final(self).wf(),
            final(self)@ == moved_to(old(self)@, index as int, false),
            shown == (if old(self)@.rows.len() == 0 {
                None
            } else {
                Some(on_list(old(self)@, index as int) as usize)
            }),
    {
        match self.move_cursor(index, false) {
            ListAct::Moved { to, .. } => Some(to),
            _ => None,
        }
    }
}

fn down(cursor: usize, step: usize, last: usize) -> (to: usize)
    ensures
        to == least(cursor + step, last as int),
{
    if cursor >= last || step >= last - cursor {
        last
    } else {
        cursor + step
    }
}

fn up(cursor: usize, step: usize) -> (to: usize)
    ensures
        to == most(cursor - step, 0),
{
    if cursor > step {
        cursor - step
    } else {
        0
    }
}

} // verus!
