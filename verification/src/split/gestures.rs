//! What may be relied on when rows and switches are clicked and typed at:
//! what activates them, what flips them, where the arrow keys lead, and how
//! they look meanwhile.

use vstd::prelude::*;

use crate::arena::WidgetId;
use crate::chars::{dec, decimal_round_trip};
use crate::event::{button, key, Event, KeyEvent};
use crate::split::pages::page_asked;
use crate::split::rows::{row_face, rows_among, sidebar_event, stepped, SidebarReply, Stepped};
use crate::split::switch::{switch_action, switch_event, switch_look, SwitchView};
use crate::split::{is_yes, press_action, press_event, Reply};
use crate::theme::ColorRole;

verus! {

// ---------------------------------------------------------------------
// pressing
// ---------------------------------------------------------------------

/// Whether the widget is activated by an event.
pub open spec fn activates(r: Option<Reply>) -> bool {
    r matches Some(reply) && reply.asks.activate
}

/// A click is the left button going down and coming up inside: then the
/// widget is activated, once, and is pressed no longer. It is not where the
/// button comes up outside, or where the pointer left in between. The button
/// going down asks for the focus.
pub proof fn a_click_activates(pressed: bool, inside: bool)
    ensures
        ({
            let down = press_event(pressed, Event::PointerDown { button: button::LEFT });
            let up = press_event(down.0, Event::PointerUp { button: button::LEFT, inside });
            let again = press_event(up.0, Event::PointerUp { button: button::LEFT, inside });
            let left = press_event(down.0, Event::PointerLeave);
            let late = press_event(left.0, Event::PointerUp { button: button::LEFT, inside });
            &&& down.0 && !activates(down.1) && down.1->0.asks.focus
            &&& activates(up.1) == inside && !up.0
            &&& !activates(again.1)
            &&& !left.0 && !activates(left.1)
            &&& !activates(late.1)
            &&& down.1->0.handled is Yes && up.1->0.handled is Yes
        }),
{
}

/// Space and Enter do what the left button does: going down presses, and
/// coming up activates what was pressed.
pub proof fn space_and_enter_click(pressed: bool, down: KeyEvent, up: KeyEvent)
    requires
        down.keycode == key::SPACE || down.keycode == key::ENTER,
        up.keycode == key::SPACE || up.keycode == key::ENTER,
    ensures
        ({
            let a = press_event(pressed, Event::KeyDown(down));
            let b = press_event(a.0, Event::KeyUp(up));
            let c = press_event(b.0, Event::KeyUp(up));
            &&& a.0 && !activates(a.1)
            &&& activates(b.1) && !b.0
            &&& !activates(c.1)
        }),
{
}

/// No other button and no other key is a click: they change nothing and are
/// let go.
pub proof fn nothing_else_is_a_click(pressed: bool, other: u32, inside: bool, k: KeyEvent)
    requires
        other != button::LEFT,
        k.keycode != key::SPACE,
        k.keycode != key::ENTER,
    ensures
        press_event(pressed, Event::PointerDown { button: other }) == (pressed, None::<Reply>),
        press_event(pressed, Event::PointerUp { button: other, inside }) == (
            pressed,
            None::<Reply>,
        ),
        press_event(pressed, Event::KeyDown(k)) == (pressed, None::<Reply>),
        press_event(pressed, Event::KeyUp(k)) == (pressed, None::<Reply>),
        press_event(pressed, Event::PointerMove) == (pressed, None::<Reply>),
        press_event(pressed, Event::Scroll) == (pressed, None::<Reply>),
{
}

/// Whatever changes how a widget looks asks for it to be painted: being
/// pressed or let go, the pointer's coming and going, and the focus.
pub proof fn a_new_look_is_painted(pressed: bool, ev: Event)
    ensures
        ({
            let (after, reply) = press_event(pressed, ev);
            &&& after != pressed || ev is PointerEnter || ev is PointerLeave || ev is FocusChanged
                ==> (reply matches Some(r) && r.asks.paint)
            &&& ev is PointerEnter || ev is FocusChanged ==> after == pressed && reply->0.handled is No
        }),
{
}

/// A script's click is a click, by any of its names; no other word is.
pub proof fn a_script_can_click(action: Seq<char>)
    ensures
        press_action(action).asks.activate <==> action == "click"@ || action == "activate"@
            || action == "press"@,
        press_action(action).handled is Yes <==> press_action(action).asks.activate,
        !press_action(action).asks.focus && !press_action(action).asks.layout,
{
}

// ---------------------------------------------------------------------
// sidebar rows
// ---------------------------------------------------------------------

/// The arrow keys lead from a sidebar row to the one above or below and press
/// nothing; everything else is as for any widget that can be pressed.
pub proof fn arrows_lead_on(pressed: bool, k: KeyEvent, ev: Event)
    ensures
        k.keycode == key::UP ==> sidebar_event(pressed, Event::KeyDown(k)) == (
            pressed,
            SidebarReply::Step { backwards: true },
        ),
        k.keycode == key::DOWN ==> sidebar_event(pressed, Event::KeyDown(k)) == (
            pressed,
            SidebarReply::Step { backwards: false },
        ),
        sidebar_event(pressed, ev).0 == press_event(pressed, ev).0,
        press_event(pressed, ev).1 matches Some(r) ==> sidebar_event(pressed, ev).1
            == SidebarReply::Answer(r),
{
}

proof fn lemma_rows_prefix(kids: Seq<WidgetId>, is_row: Seq<bool>, own: WidgetId, q: int)
    requires
        0 <= q <= kids.len(),
    ensures
        rows_among(kids.take(q), is_row, own).len() <= rows_among(kids, is_row, own).len(),
        rows_among(kids, is_row, own).take(
            rows_among(kids.take(q), is_row, own).len() as int,
        ) == rows_among(kids.take(q), is_row, own),
    decreases kids.len(),
{
    let part = rows_among(kids.take(q), is_row, own);
    if q == kids.len() {
        assert(kids.take(q) =~= kids);
        assert(part.take(part.len() as int) =~= part);
    } else {
        let head = kids.drop_last();
        assert(head.take(q) =~= kids.take(q));
        lemma_rows_prefix(head, is_row, own, q);
        let all = rows_among(kids, is_row, own);
        assert(all.take(part.len() as int) =~= rows_among(head, is_row, own).take(
            part.len() as int,
        ));
    }
}

proof fn lemma_no_rows(kids: Seq<WidgetId>, is_row: Seq<bool>, own: WidgetId, p: int, q: int)
    requires
        0 <= p <= q <= kids.len(),
        forall|j: int|
            p <= j < q ==> #[trigger] kids[j] != own && !(j < is_row.len() && is_row[j]),
    ensures
        rows_among(kids.take(q), is_row, own) == rows_among(kids.take(p), is_row, own),
    decreases q - p,
{
    if p < q {
        lemma_no_rows(kids, is_row, own, p, q - 1);
        assert(kids.take(q).drop_last() =~= kids.take(q - 1));
        assert(kids.take(q).last() == kids[q - 1]);
    }
}

proof fn lemma_rows_are_kids(kids: Seq<WidgetId>, is_row: Seq<bool>, own: WidgetId, x: WidgetId)
    requires
        rows_among(kids, is_row, own).contains(x),
    ensures
        kids.contains(x),
    decreases kids.len(),
{
    let all = rows_among(kids, is_row, own);
    let head = kids.drop_last();
    let before = rows_among(head, is_row, own);
    let k = choose|k: int| 0 <= k < all.len() && all[k] == x;
    if k < before.len() {
        assert(before[k] == x);
        lemma_rows_are_kids(head, is_row, own, x);
        let i = choose|i: int| 0 <= i < head.len() && head[i] == x;
        assert(kids[i] == x);
    } else {
        assert(kids[kids.len() - 1] == x);
    }
}

/// Where own row stands among the rows.
proof fn lemma_own(kids: Seq<WidgetId>, is_row: Seq<bool>, own: WidgetId, p: int) -> (n: int)
    requires
        kids.no_duplicates(),
        0 <= p < kids.len(),
        kids[p] == own,
    ensures
        n == rows_among(kids.take(p), is_row, own).len(),
        rows_among(kids.take(p + 1), is_row, own) == rows_among(kids.take(p), is_row, own).push(own),
        n < rows_among(kids, is_row, own).len(),
        rows_among(kids, is_row, own).index_of_first(own) == Some(n),
{
    let rows = rows_among(kids, is_row, own);
    let before = rows_among(kids.take(p), is_row, own);
    let n = before.len() as int;
    assert(kids.take(p + 1).drop_last() =~= kids.take(p));
    assert(kids.take(p + 1).last() == own);
    lemma_rows_prefix(kids, is_row, own, p + 1);
    lemma_rows_prefix(kids, is_row, own, p);
    assert(rows.take(n + 1)[n] == own);
    assert(rows[n] == own);
    rows.index_of_first_ensures(own);
    let i = rows.index_of_first(own)->0;
    if i < n {
        assert(rows.take(n)[i] == own);
        assert(before[i] == own);
        assert(before.contains(own));
        lemma_rows_are_kids(kids.take(p), is_row, own, own);
        let j = choose|j: int| 0 <= j < p && kids.take(p)[j] == own;
        assert(kids[j] == kids[p]);
    }
    n
}

/// Down leads to the next row below and Up to the next one above: to a row,
/// with none in between; where there is none, it leads no further.
pub proof fn stepping_leads_to_the_next_row(
    kids: Seq<WidgetId>,
    is_row: Seq<bool>,
    p: int,
    q: int,
)
    requires
        kids.no_duplicates(),
        is_row.len() == kids.len(),
        0 <= p < q < kids.len(),
        is_row[p],
        is_row[q],
        forall|j: int| p < j < q ==> !#[trigger] is_row[j],
    ensures
        stepped(rows_among(kids, is_row, kids[p]), kids[p], false) == Stepped::To(kids[q]),
        stepped(rows_among(kids, is_row, kids[q]), kids[q], true) == Stepped::To(kids[p]),
{
    let down = kids[p];
    let rows = rows_among(kids, is_row, down);
    let n = lemma_own(kids, is_row, down, p);
    assert forall|j: int| p + 1 <= j < q implies #[trigger] kids[j] != down && !(j < is_row.len()
        && is_row[j]) by {
        assert(kids[j] != kids[p]);
    }
    lemma_no_rows(kids, is_row, down, p + 1, q);
    assert(kids.take(q + 1).drop_last() =~= kids.take(q));
    assert(kids.take(q + 1).last() == kids[q]);
    lemma_rows_prefix(kids, is_row, down, q + 1);
    assert(rows.take(n + 2)[n + 1] == kids[q]);

    let up = kids[q];
    let others = rows_among(kids, is_row, up);
    let m = lemma_own(kids, is_row, up, q);
    assert forall|j: int| p + 1 <= j < q implies #[trigger] kids[j] != up && !(j < is_row.len()
        && is_row[j]) by {
        assert(kids[j] != kids[q]);
    }
    lemma_no_rows(kids, is_row, up, p + 1, q);
    assert(kids.take(p + 1).drop_last() =~= kids.take(p));
    assert(kids.take(p + 1).last() == kids[p]);
    lemma_rows_prefix(kids, is_row, up, p + 1);
    let part = rows_among(kids.take(p + 1), is_row, up);
    assert(part.len() == m);
    assert(others.take(m)[m - 1] == part[m - 1]);
}

/// From the last row Down leads no further, nor Up from the first; a widget
/// that is not among the children leads nowhere.
pub proof fn stepping_stops_at_the_ends(kids: Seq<WidgetId>, is_row: Seq<bool>, p: int, x: WidgetId)
    requires
        kids.no_duplicates(),
        is_row.len() == kids.len(),
        0 <= p < kids.len(),
    ensures
        (forall|j: int| p < j < kids.len() ==> !#[trigger] is_row[j]) ==> stepped(
            rows_among(kids, is_row, kids[p]),
            kids[p],
            false,
        ) == Stepped::Stay,
        (forall|j: int| 0 <= j < p ==> !#[trigger] is_row[j]) ==> stepped(
            rows_among(kids, is_row, kids[p]),
            kids[p],
            true,
        ) == Stepped::Stay,
        !kids.contains(x) ==> stepped(rows_among(kids, is_row, x), x, false) == Stepped::Nowhere
            && stepped(rows_among(kids, is_row, x), x, true) == Stepped::Nowhere,
{
    let own = kids[p];
    let n = lemma_own(kids, is_row, own, p);
    let len = kids.len() as int;
    if forall|j: int| p < j < len ==> !#[trigger] is_row[j] {
        assert forall|j: int| p + 1 <= j < len implies #[trigger] kids[j] != own && !(j
            < is_row.len() && is_row[j]) by {
            assert(kids[j] != kids[p]);
        }
        lemma_no_rows(kids, is_row, own, p + 1, len);
        assert(kids.take(len) =~= kids);
    }
    if forall|j: int| 0 <= j < p ==> !#[trigger] is_row[j] {
        assert forall|j: int| 0 <= j < p implies #[trigger] kids[j] != own && !(j < is_row.len()
            && is_row[j]) by {
            assert(kids[j] != kids[p]);
        }
        lemma_no_rows(kids, is_row, own, 0, p);
        assert(kids.take(0).len() == 0);
    }
    if !kids.contains(x) {
        let rows = rows_among(kids, is_row, x);
        if rows.contains(x) {
            lemma_rows_are_kids(kids, is_row, x, x);
        }
        rows.index_of_first_ensures(x);
    }
}

/// A selected row looks selected whatever else is the case; any other row
/// shows that the pointer is on it or holds it, and has no face of its own
/// otherwise.
pub proof fn a_selected_row_looks_selected(hovered: bool, pressed: bool)
    ensures
        row_face(true, hovered, pressed) == Some(ColorRole::SidebarSelected),
        hovered || pressed ==> row_face(false, hovered, pressed) == Some(ColorRole::SidebarHover),
        row_face(false, false, false) is None,
{
}

// ---------------------------------------------------------------------
// switches
// ---------------------------------------------------------------------

/// A switch that reacts is flipped by the left button coming up inside and by
/// Space, and by nothing else that happens to it; each time it is flipped the
/// app is told and it is painted, and it never is told otherwise.
pub proof fn what_flips_a_switch(v: SwitchView, ev: Event)
    requires
        v.enabled,
    ensures
        ({
            let (w, r) = switch_event(v, ev);
            let flips = (ev matches Event::PointerUp { button, inside } && button == button::LEFT
                && inside) || (ev matches Event::KeyDown(k) && k.keycode == key::SPACE);
            &&& w.checked == (v.checked != flips)
            &&& w.label == v.label && w.enabled == v.enabled
            &&& r.asks.activate == flips
            &&& flips ==> r.asks.paint && r.handled is Yes
            &&& ev == (Event::PointerDown { button: button::LEFT }) ==> r.asks.focus
                && r.handled is Yes
            &&& ev is PointerEnter || ev is PointerLeave || ev is FocusChanged ==> r.asks.paint
                && r.handled is No
        }),
{
}

/// A script sets a switch to what it says, or turns it over; the app is told
/// exactly where that changed it.
pub proof fn a_script_sets_a_switch(v: SwitchView, arg: Option<Seq<char>>)
    requires
        v.enabled,
    ensures
        ({
            let (w, r) = switch_action(v, "set_value"@, arg);
            &&& w == (SwitchView { checked: is_yes(arg), ..v })
            &&& r.handled is Yes
            &&& r.asks.activate == (is_yes(arg) != v.checked)
        }),
        ({
            let (w, r) = switch_action(v, "toggle"@, arg);
            &&& w == (SwitchView { checked: !v.checked, ..v })
            &&& r.handled is Yes && r.asks.activate
        }),
        switch_action(v, "set_checked"@, arg) == switch_action(v, "set_value"@, arg),
        switch_action(v, "click"@, arg) == switch_action(v, "toggle"@, arg),
        switch_action(v, "activate"@, arg) == switch_action(v, "toggle"@, arg),
{
    lemma_switch_words();
}

proof fn lemma_switch_words()
    ensures
        "set_value"@ != "toggle"@ && "set_value"@ != "click"@ && "set_value"@ != "activate"@,
        "set_checked"@ != "toggle"@ && "set_checked"@ != "click"@ && "set_checked"@ != "activate"@,
        "set_label"@ != "toggle"@ && "set_label"@ != "click"@ && "set_label"@ != "activate"@,
        "set_label"@ != "set_value"@ && "set_label"@ != "set_checked"@,
        "set_enabled"@ != "toggle"@ && "set_enabled"@ != "click"@ && "set_enabled"@ != "activate"@,
        "set_enabled"@ != "set_value"@ && "set_enabled"@ != "set_checked"@ && "set_enabled"@
            != "set_label"@,
{
    reveal_strlit("set_value");
    reveal_strlit("set_checked");
    reveal_strlit("set_label");
    reveal_strlit("set_enabled");
    reveal_strlit("toggle");
    reveal_strlit("click");
    reveal_strlit("activate");
    assert("set_value"@.len() == 9 && "set_label"@.len() == 9 && "set_checked"@.len() == 11
        && "set_enabled"@.len() == 11);
    assert("toggle"@.len() == 6 && "click"@.len() == 5 && "activate"@.len() == 8);
    assert("set_value"@[4] == 'v' && "set_label"@[4] == 'l');
    assert("set_checked"@[4] == 'c' && "set_enabled"@[4] == 'e');
}

/// A script renames a switch, which is then laid out anew, and lets it react
/// or not; neither moves it or tells the app.
pub proof fn a_script_renames_and_disables_a_switch(v: SwitchView, text: Seq<char>)
    ensures
        ({
            let (w, r) = switch_action(v, "set_label"@, Some(text));
            &&& w == (SwitchView { label: text, ..v })
            &&& r.handled is Yes && r.asks.layout && !r.asks.activate
        }),
        ({
            let (w, r) = switch_action(v, "set_enabled"@, Some(text));
            &&& w == (SwitchView { enabled: text != "false"@, ..v })
            &&& r.handled is Yes && r.asks.paint && !r.asks.activate
        }),
{
    lemma_switch_words();
}

/// What counts as yes: four words, and nothing else.
pub proof fn what_counts_as_yes(a: Seq<char>)
    ensures
        is_yes(Some("true"@)) && is_yes(Some("1"@)) && is_yes(Some("on"@)) && is_yes(Some("yes"@)),
        a != "true"@ && a != "1"@ && a != "on"@ && a != "yes"@ ==> !is_yes(Some(a)),
        !is_yes(None),
{
}

/// A switch shows what it is: where its knob stands tells on from off, a
/// track in the accent colour too where it reacts, and a disabled one looks
/// disabled whether it is on or not, and whether the pointer is on it. The
/// focus shows as a border and nothing else.
pub proof fn a_switch_shows_what_it_is(v: SwitchView, w: SwitchView, hovered: bool, focused: bool)
    ensures
        switch_look(v, hovered, focused).far == v.checked,
        switch_look(v, hovered, focused).labelled == (v.label.len() > 0),
        !v.enabled ==> switch_look(v, hovered, focused).track is ButtonDisabled && switch_look(
            v,
            hovered,
            focused,
        ).text is TextDim,
        v.enabled ==> switch_look(v, hovered, focused).text is Text && switch_look(
            v,
            hovered,
            focused,
        ).track !is ButtonDisabled,
        v.enabled && v.checked ==> switch_look(v, true, focused).track is AccentHover
            && switch_look(v, false, focused).track is Accent,
        v.enabled && !v.checked ==> switch_look(v, true, focused).track is ButtonHover
            && switch_look(v, false, focused).track is Track,
        switch_look(v, hovered, focused).border == (if focused {
            Some(ColorRole::Focus)
        } else {
            None
        }),
        v.checked != w.checked ==> switch_look(v, hovered, focused).knob != switch_look(
            w,
            hovered,
            focused,
        ).knob,
{
}

// ---------------------------------------------------------------------
// pages
// ---------------------------------------------------------------------

/// A script turns to the page whose number it gives; anything that is no
/// number, and any other action, turns to none.
pub proof fn a_script_turns_to_a_page(n: usize, action: Seq<char>, arg: Option<Seq<char>>)
    ensures
        page_asked("show"@, Some(dec(n as nat))) == Some(n as nat),
        page_asked("set_value"@, Some(dec(n as nat))) == Some(n as nat),
        page_asked("show"@, None) is None,
        action != "show"@ && action != "set_value"@ ==> page_asked(action, arg) is None,
{
    decimal_round_trip(n as nat, usize::MAX as nat);
}

} // verus!
