//! [`Pages`]: a stack of which one child shows at a time.

use vstd::prelude::*;

use crate::arena::WidgetId;
use crate::chars::{chars_of, dec, decimal, parse_dec, parse_decimal, text_eq};
use crate::event::Handled;
use crate::introspect::sockets::str_view;
use crate::tree::{ancestors, flagged, linked, Nodes};
use crate::ui::focus::{focus_dropped, revealed};
use crate::ui::{Ui, UiView};
use crate::widget::{Access, AccessView, Role, Widget};

verus! {

/// A stack of pages of which one shows at a time.
#[derive(Debug, Clone, Copy, PartialEq, Eq, Structural)]
pub struct Pages {
    /// Which child shows.
    pub current: usize,
}

/// Which page an action asks for.
pub open spec fn page_asked(action: Seq<char>, arg: Option<Seq<char>>) -> Option<nat> {
    if action == "set_value"@ || action == "show"@ {
        match arg {
            Some(a) => parse_dec(a, usize::MAX as nat),
            None => None,
        }
    } else {
        None
    }
}

impl Pages {
    /// A stack that shows its first page.
    pub fn new() -> (p: Pages)
        ensures
            p.current == 0,
    {
        Pages { current: 0 }
    }

    /// Which page shows.
    pub fn current(&self) -> (n: usize)
        ensures
            n == self.current,
    {
        self.current
    }

    /// Whether the page at `i` shows.
    pub fn shows(&self, i: usize) -> (r: bool)
        ensures
            r == (i == self.current),
    {
        i == self.current
    }

    /// Carry out an action. The page that is to show is current then, and
    /// the tree has to be told.
    pub fn action(&mut self, action: &str, arg: Option<&str>) -> (h: Handled)
        ensures
            match page_asked(action@, str_view(arg)) {
                Some(i) => h == Handled::Yes && final(self).current == i,
                None => h == Handled::No && final(self).current == old(self).current,
            },
    {
        if !text_eq(action, "set_value") && !text_eq(action, "show") {
            return Handled::No;
        }
        match arg {
            Some(a) => match parse_decimal(chars_of(a).as_slice(), usize::MAX as u64) {
                Some(i) => {
                    self.current = i as usize;
                    Handled::Yes
                },
                None => Handled::No,
            },
            None => Handled::No,
        }
    }

    /// Make a page the current one; whether it was another before, and the
    /// tree has to be told.
    pub fn show(&mut self, index: usize) -> (changed: bool)
        ensures
            final(self).current == index,
            changed == (old(self).current != index),
    {
        let changed: bool = self.current != index;
        self.current = index;
        changed
    }
}

impl Widget for Pages {
    open spec fn role_view(&self) -> Role {
        Role::Container
    }

    open spec fn enabled_view(&self) -> bool {
        true
    }

    open spec fn access_view(&self) -> AccessView {
        AccessView {
            name: None,
            value: Some(dec(self.current as nat)),
            actions: seq!["set_value"@],
        }
    }

    fn role(&self) -> (r: Role) {
        Role::Container
    }

    fn enabled(&self) -> (r: bool) {
        true
    }

    fn accessible(&self) -> (a: Access) {
        let mut actions: Vec<&'static str> = Vec::new();
        actions.push("set_value");
        let a = Access { name: None, value: Some(decimal(self.current as u64)), actions };
        assert(a@.actions =~= self.access_view().actions);
        a
    }
}

// ---------------------------------------------------------------------
// what the tree is told
// ---------------------------------------------------------------------

/// The tree after each of `kids` was shown or hidden: the one at `index` is
/// shown, the others are hidden.
pub open spec fn turned<W>(
    ui: UiView<W>,
    rank: Map<WidgetId, nat>,
    top: nat,
    kids: Seq<WidgetId>,
    index: int,
) -> UiView<W>
    decreases kids.len(),
{
    if kids.len() == 0 {
        ui
    } else {
        revealed(
            turned(ui, rank, top, kids.drop_last(), index),
            rank,
            top,
            kids.last(),
            kids.len() - 1 == index,
        )
    }
}

/// The children of a widget; none where it is not live.
pub open spec fn kids_of<W>(m: Nodes<W>, id: WidgetId) -> Seq<WidgetId> {
    if m.dom().contains(id) {
        m[id].state.children
    } else {
        Seq::empty()
    }
}

/// Whether a widget is shown: it is live, and neither it nor an ancestor is
/// hidden.
pub open spec fn on_show<W>(m: Nodes<W>, rank: Map<WidgetId, nat>, top: nat, id: WidgetId) -> bool {
    &&& m.dom().contains(id)
    &&& m[id].state.visible
    &&& forall|i: int|
        0 <= i < ancestors(m, rank, top, id).len()
            ==> m[#[trigger] ancestors(m, rank, top, id)[i]].state.visible
}

/// The tree after a page was turned to: the focus is dropped where it is on
/// a widget that is not shown any more.
pub open spec fn page_shown<W>(
    ui: UiView<W>,
    rank: Map<WidgetId, nat>,
    top: nat,
    id: WidgetId,
    index: int,
) -> UiView<W> {
    let v = turned(ui, rank, top, kids_of(ui.nodes, id), index);
    match v.focused {
        Some(f) => if on_show(v.nodes, rank, top, f) {
            v
        } else {
            focus_dropped(v, rank, top)
        },
        None => v,
    }
}

impl<W> Ui<W> {
    /// Show one child of a widget and hide the others.
    pub fn turn_to(&mut self, id: WidgetId, index: usize)
        requires
            old(self).wf(),
        ensures
            final(self).wf(),
            final(self).rank() == old(self).rank(),
            final(self).top() == old(self).top(),
            final(self)@ == turned(
                old(self)@,
                old(self).rank(),
                old(self).top(),
                kids_of(old(self)@.nodes, id),
                index as int,
            ),
            final(self).space_left() == old(self).space_left(),
            final(self).still_retired(old(self)),
    {
        let kids = self.children(id);
        let ghost v = self@;
        let mut k: usize = 0;
        while k < kids.len()
            invariant
                k <= kids.len(),
                self.wf(),
                self.rank() == old(self).rank(),
                self.top() == old(self).top(),
                v == old(self)@,
                self@ == turned(
                    v,
                    old(self).rank(),
                    old(self).top(),
                    kids@.take(k as int),
                    index as int,
                ),
                self.space_left() == old(self).space_left(),
                self.still_retired(old(self)),
            decreases kids.len() - k,
        {
            self.set_node_visible(kids[k], k == index);
            assert(kids@.take(k + 1).drop_last() =~= kids@.take(k as int));
            k += 1;
        }
        assert(kids@.take(k as int) =~= kids@);
    }

    /// Show one child of a widget and hide the others, and take the focus
    /// off a widget that does not show any more: keystrokes would land in
    /// something nobody can see.
    pub fn show_page(&mut self, id: WidgetId, index: usize)
        requires
            old(self).wf(),
        ensures
            final(self).wf(),
            final(self).rank() == old(self).rank(),
            final(self).top() == old(self).top(),
            final(self)@ == page_shown(
                old(self)@,
                old(self).rank(),
                old(self).top(),
                id,
                index as int,
            ),
            final(self).space_left() == old(self).space_left(),
            final(self).still_retired(old(self)),
    {
        self.turn_to(id, index);
        if let Some(f) = self.focused() {
            if !self.is_visible(f) {
                self.unfocus();
            }
        }
    }
}

// ---------------------------------------------------------------------
// laws
// ---------------------------------------------------------------------

/// What showing or hiding widgets leaves alone: which widgets there are, and
/// whether any other is shown.
proof fn lemma_turned<W>(
    ui: UiView<W>,
    rank: Map<WidgetId, nat>,
    top: nat,
    kids: Seq<WidgetId>,
    index: int,
)
    requires
        kids.no_duplicates(),
        forall|i: int| 0 <= i < kids.len() ==> ui.nodes.dom().contains(#[trigger] kids[i]),
    ensures
        turned(ui, rank, top, kids, index).nodes.dom() == ui.nodes.dom(),
        turned(ui, rank, top, kids, index).focused == ui.focused,
        forall|x: WidgetId|
            #![trigger turned(ui, rank, top, kids, index).nodes[x]]
            ui.nodes.dom().contains(x) && !kids.contains(x) ==> turned(
                ui,
                rank,
                top,
                kids,
                index,
            ).nodes[x].state.visible == ui.nodes[x].state.visible,
        forall|i: int|
            0 <= i < kids.len() ==> turned(
                ui,
                rank,
                top,
                kids,
                index,
            ).nodes[#[trigger] kids[i]].state.visible == (i == index),
    decreases kids.len(),
{
    reveal(flagged);
    if kids.len() > 0 {
        let before = kids.drop_last();
        let c = kids.last();
        assert forall|i: int| 0 <= i < before.len() implies ui.nodes.dom().contains(
            #[trigger] before[i],
        ) by {
            assert(before[i] == kids[i]);
        }
        lemma_turned(ui, rank, top, before, index);
        let v = turned(ui, rank, top, before, index);
        let w = turned(ui, rank, top, kids, index);
        assert(ui.nodes.dom().contains(kids[kids.len() - 1]));
        assert(w.nodes.dom() =~= v.nodes.dom());
        assert forall|x: WidgetId| ui.nodes.dom().contains(x) && x != c implies #[trigger] w.nodes[x].state.visible
            == v.nodes[x].state.visible by {}
        assert(w.nodes[c].state.visible == (kids.len() - 1 == index));
        assert forall|i: int| 0 <= i < kids.len() implies w.nodes[#[trigger] kids[i]].state.visible
            == (i == index) by {
            if i < kids.len() - 1 {
                assert(before[i] == kids[i]);
                assert(kids[i] != c);
            }
        }
        assert forall|x: WidgetId|
            #![trigger w.nodes[x]]
            ui.nodes.dom().contains(x) && !kids.contains(x) implies w.nodes[x].state.visible
            == ui.nodes[x].state.visible by {
            assert(kids[kids.len() - 1] == c);
            if before.contains(x) {
                let i = choose|i: int| 0 <= i < before.len() && before[i] == x;
                assert(kids[i] == x);
            }
        }
    }
}

/// Turning to a page shows that page and hides every other, and shows and
/// hides nothing else.
pub proof fn one_page_shows<W>(ui: &Ui<W>, id: WidgetId, index: int, x: WidgetId)
    requires
        ui.wf(),
        ui@.nodes.dom().contains(id),
        ui@.nodes.dom().contains(x),
    ensures
        ({
            let kids = ui@.nodes[id].state.children;
            let after = turned(ui@, ui.rank(), ui.top(), kids, index).nodes;
            after[x].state.visible == (if kids.contains(x) {
                0 <= index < kids.len() && x == kids[index]
            } else {
                ui@.nodes[x].state.visible
            })
        }),
{
    let kids = ui@.nodes[id].state.children;
    ui.tree_shape();
    reveal(linked);
    assert(kids.no_duplicates());
    lemma_turned(ui@, ui.rank(), ui.top(), kids, index);
    if kids.contains(x) {
        let i = choose|i: int| 0 <= i < kids.len() && kids[i] == x;
        assert(kids[i] == x);
    }
}

/// After a page was turned to, the focus is not on a widget that was hidden
/// with another page.
pub proof fn no_focus_out_of_sight<W>(ui: &Ui<W>, id: WidgetId, index: int)
    requires
        ui.wf(),
    ensures
        ({
            let after = page_shown(ui@, ui.rank(), ui.top(), id, index);
            match after.focused {
                Some(f) => on_show(after.nodes, ui.rank(), ui.top(), f),
                None => true,
            }
        }),
{
}

/// A focus that is in sight after a page was turned to stays where it is; one
/// that is not is dropped; and turning a page changes nothing else about what
/// is visible.
pub proof fn a_focus_in_sight_stays<W>(ui: &Ui<W>, id: WidgetId, index: int, f: WidgetId)
    requires
        ui.wf(),
        ui@.focused == Some(f),
    ensures
        ({
            let turn = turned(ui@, ui.rank(), ui.top(), kids_of(ui@.nodes, id), index);
            let after = page_shown(ui@, ui.rank(), ui.top(), id, index);
            &&& on_show(turn.nodes, ui.rank(), ui.top(), f) ==> after == turn && after.focused
                == Some(f)
            &&& !on_show(turn.nodes, ui.rank(), ui.top(), f) ==> after.focused is None
                && after.pending_focus == ui@.pending_focus.push((f, false))
        }),
{
    lemma_turned_focus(ui@, ui.rank(), ui.top(), kids_of(ui@.nodes, id), index);
}

proof fn lemma_turned_focus<W>(
    ui: UiView<W>,
    rank: Map<WidgetId, nat>,
    top: nat,
    kids: Seq<WidgetId>,
    index: int,
)
    ensures
        turned(ui, rank, top, kids, index).focused == ui.focused,
        turned(ui, rank, top, kids, index).pending_focus == ui.pending_focus,
    decreases kids.len(),
{
    if kids.len() > 0 {
        lemma_turned_focus(ui, rank, top, kids.drop_last(), index);
    }
}

/// Pages read as the number of the one that shows, and a script can set it.
pub proof fn pages_read_as_their_number(p: Pages)
    ensures
        p.access_view().value == Some(dec(p.current as nat)),
        p.access_view().actions == seq!["set_value"@],
        p.access_view().name is None,
        p.role_view() is Container,
        p.enabled_view(),
{
}

} // verus!
