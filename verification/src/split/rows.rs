//! The rows of a sidebar and of a card.

use vstd::prelude::*;

use crate::arena::WidgetId;
use crate::chars::{owned, text_eq};
use crate::event::{key, Event, Handled};
use crate::introspect::sockets::str_view;
use crate::split::{
    is_yes, pass, passed, press_action, press_event, yes, Asks, Pressable, Reply,
};
use crate::theme::ColorRole;
use crate::tree::{linked, Nodes};
use crate::ui::Ui;
use crate::widget::{default_access, role_access, Access, AccessView, Role, Widget};

verus! {

// ---------------------------------------------------------------------
// SidebarRow
// ---------------------------------------------------------------------

/// One row of a sidebar.
#[derive(Debug, Clone, PartialEq, Eq)]
pub struct SidebarRow {
    /// What it says.
    pub label: String,
    /// Whether it is the selected one.
    pub selected: bool,
    /// Whether it is held down.
    pub press: Pressable,
}

/// What an event does to a sidebar row.
#[derive(Debug, Clone, Copy, PartialEq, Eq, Structural)]
pub enum SidebarReply {
    /// The row answers it.
    Answer(Reply),
    /// The row before it, or behind it, is to be pressed in its place.
    Step {
        /// Whether it is the one before.
        backwards: bool,
    },
}

/// The reply of a sidebar row to an event: the arrow keys step to another
/// row, and the rest is about pressing.
pub open spec fn sidebar_event(pressed: bool, ev: Event) -> (bool, SidebarReply) {
    let (after, reply) = press_event(pressed, ev);
    (after, match reply {
        Some(r) => SidebarReply::Answer(r),
        None => match ev {
            Event::KeyDown(k) => if k.keycode == key::UP {
                SidebarReply::Step { backwards: true }
            } else if k.keycode == key::DOWN {
                SidebarReply::Step { backwards: false }
            } else {
                SidebarReply::Answer(passed())
            },
            _ => SidebarReply::Answer(passed()),
        },
    })
}

/// Which colour the face of a row takes; none is transparent.
pub open spec fn row_face(selected: bool, hovered: bool, pressed: bool) -> Option<ColorRole> {
    if selected {
        Some(ColorRole::SidebarSelected)
    } else if hovered || pressed {
        Some(ColorRole::SidebarHover)
    } else {
        None
    }
}

impl SidebarRow {
    /// An unselected row.
    pub fn new(label: String) -> (r: SidebarRow)
        ensures
            r.label@ == label@,
            !r.selected,
            !r.press.pressed,
    {
        SidebarRow { label, selected: false, press: Pressable::new() }
    }

    /// What the row says.
    pub fn label(&self) -> (s: &str)
        ensures
            s@ == self.label@,
    {
        self.label.as_str()
    }

    /// Whether this is the selected row.
    pub fn is_selected(&self) -> (r: bool)
        ensures
            r == self.selected,
    {
        self.selected
    }

    /// Whether the row is held down.
    pub fn is_pressed(&self) -> (r: bool)
        ensures
            r == self.press.pressed,
    {
        self.press.pressed
    }

    /// Handle an event.
    pub fn event(&mut self, ev: &Event) -> (reply: SidebarReply)
        ensures
            (final(self).press.pressed, reply) == sidebar_event(old(self).press.pressed, *ev),
            final(self).label == old(self).label,
            final(self).selected == old(self).selected,
    {
        if let Some(r) = self.press.event(ev) {
            return SidebarReply::Answer(r);
        }
        match ev {
            Event::KeyDown(k) => if k.keycode == key::UP {
                SidebarReply::Step { backwards: true }
            } else if k.keycode == key::DOWN {
                SidebarReply::Step { backwards: false }
            } else {
                SidebarReply::Answer(pass())
            },
            _ => SidebarReply::Answer(pass()),
        }
    }

    /// Carry out an action.
    pub fn action(&mut self, action: &str, arg: Option<&str>) -> (reply: Reply)
        ensures
            final(self).label == old(self).label,
            final(self).press == old(self).press,
            final(self).selected == (if action@ == "set_selected"@ {
                is_yes(str_view(arg))
            } else {
                old(self).selected
            }),
            reply == (if action@ == "set_selected"@ {
                Reply {
                    handled: Handled::Yes,
                    asks: Asks {
                        paint: old(self).selected != is_yes(str_view(arg)),
                        ..Asks::none()
                    },
                }
            } else {
                press_action(action@)
            }),
    {
        if text_eq(action, "set_selected") {
            let mut asks = Asks::nothing();
            asks.paint = self.set_selected(yes(arg));
            Reply { handled: Handled::Yes, asks }
        } else {
            self.press.action(action)
        }
    }

    /// Mark the row as selected or not; whether it has to be painted.
    pub fn set_selected(&mut self, selected: bool) -> (paint: bool)
        ensures
            *final(self) == (SidebarRow { selected, ..*old(self) }),
            paint == (old(self).selected != selected),
    {
        let changed: bool = self.selected != selected;
        self.selected = selected;
        changed
    }

    /// Change what the row says; whether the label inside it has to say it
    /// too.
    pub fn set_label(&mut self, text: &str) -> (changed: bool)
        ensures
            final(self).label@ == text@,
            final(self).selected == old(self).selected,
            final(self).press == old(self).press,
            changed == (old(self).label@ != text@),
    {
        if text_eq(self.label.as_str(), text) {
            return false;
        }
        self.label = owned(text);
        true
    }

    /// The colour of the row's face; none is transparent.
    pub fn face(&self, hovered: bool) -> (c: Option<ColorRole>)
        ensures
            c == row_face(self.selected, hovered, self.press.pressed),
    {
        face_of(self.selected, hovered, self.press.pressed)
    }
}

fn face_of(selected: bool, hovered: bool, pressed: bool) -> (c: Option<ColorRole>)
    ensures
        c == row_face(selected, hovered, pressed),
{
    if selected {
        Some(ColorRole::SidebarSelected)
    } else if hovered || pressed {
        Some(ColorRole::SidebarHover)
    } else {
        None
    }
}

impl Widget for SidebarRow {
    open spec fn role_view(&self) -> Role {
        Role::Button
    }

    open spec fn enabled_view(&self) -> bool {
        true
    }

    open spec fn access_view(&self) -> AccessView {
        AccessView {
            name: Some(self.label@),
            value: Some(self.label@),
            actions: seq!["click"@, "activate"@, "focus"@, "set_selected"@],
        }
    }

    fn role(&self) -> (r: Role) {
        Role::Button
    }

    fn enabled(&self) -> (r: bool) {
        true
    }

    fn accessible(&self) -> (a: Access) {
        let mut actions: Vec<&'static str> = Vec::new();
        actions.push("click");
        actions.push("activate");
        actions.push("focus");
        actions.push("set_selected");
        let a = Access {
            name: Some(owned(self.label.as_str())),
            value: Some(owned(self.label.as_str())),
            actions,
        };
        assert(a@.actions =~= self.access_view().actions);
        a
    }
}

/// Which child of a sidebar row is its label.
pub const LABEL_CHILD: usize = 1;

/// Which child of a sidebar row is its badge, where it has one.
pub const BADGE_CHILD: usize = 2;

/// What is to be done about the badge of a sidebar row.
#[derive(Debug, Clone, Copy, PartialEq, Eq, Structural)]
pub enum BadgeChange {
    /// Nothing.
    Nothing,
    /// This label is to say something else.
    Say(WidgetId),
    /// This label is to go.
    Remove(WidgetId),
    /// A label is to be appended to the row.
    Append,
}

/// What a new badge, or none, means for a row with these children.
pub fn badge_change(kids: &Vec<WidgetId>, wanted: bool) -> (c: BadgeChange)
    ensures
        c == (if kids@.len() > BADGE_CHILD {
            if wanted {
                BadgeChange::Say(kids@[BADGE_CHILD as int])
            } else {
                BadgeChange::Remove(kids@[BADGE_CHILD as int])
            }
        } else if wanted {
            BadgeChange::Append
        } else {
            BadgeChange::Nothing
        }),
{
    if kids.len() > BADGE_CHILD {
        if wanted {
            BadgeChange::Say(kids[BADGE_CHILD])
        } else {
            BadgeChange::Remove(kids[BADGE_CHILD])
        }
    } else if wanted {
        BadgeChange::Append
    } else {
        BadgeChange::Nothing
    }
}

// ---------------------------------------------------------------------
// stepping from row to row
// ---------------------------------------------------------------------

/// Where a step from a row leads.
#[derive(Debug, Clone, Copy, PartialEq, Eq, Structural)]
pub enum Stepped {
    /// The row is in no sidebar.
    Nowhere,
    /// There is no row further on.
    Stay,
    /// This row is to get the focus and be clicked.
    To(WidgetId),
}

/// The ids among `kids` that are rows, in order; `own` is one in any case.
pub open spec fn rows_among(kids: Seq<WidgetId>, is_row: Seq<bool>, own: WidgetId) -> Seq<WidgetId>
    decreases kids.len(),
{
    if kids.len() == 0 {
        Seq::empty()
    } else {
        let before = rows_among(kids.drop_last(), is_row, own);
        let i = kids.len() - 1;
        if kids.last() == own || (i < is_row.len() && is_row[i]) {
            before.push(kids.last())
        } else {
            before
        }
    }
}

/// Where a step from `own` leads among the rows of its sidebar.
pub open spec fn stepped(rows: Seq<WidgetId>, own: WidgetId, backwards: bool) -> Stepped {
    let i = rows.index_of_first(own);
    match i {
        None => Stepped::Nowhere,
        Some(i) => if backwards {
            if i > 0 {
                Stepped::To(rows[i - 1])
            } else {
                Stepped::Stay
            }
        } else if i + 1 < rows.len() {
            Stepped::To(rows[i + 1])
        } else {
            Stepped::Stay
        },
    }
}

/// The parent of a live widget.
pub open spec fn parent_in<W>(m: Nodes<W>, id: WidgetId) -> Option<WidgetId> {
    if m.dom().contains(id) {
        m[id].state.parent
    } else {
        None
    }
}

/// Where a step from a row leads, where `is_row` says which of the children
/// beside it are rows.
pub fn step<W>(ui: &Ui<W>, own: WidgetId, is_row: &Vec<bool>, backwards: bool) -> (s: Stepped)
    requires
        ui.wf(),
    ensures
        s == (match parent_in(ui@.nodes, own) {
            Some(p) => stepped(
                rows_among(ui@.nodes[p].state.children, is_row@, own),
                own,
                backwards,
            ),
            None => Stepped::Nowhere,
        }),
{
    let parent = match ui.parent(own) {
        Some(p) => p,
        None => return Stepped::Nowhere,
    };
    proof {
        ui.tree_shape();
        reveal(linked);
        assert(ui@.nodes.dom().contains(own));
        assert(ui@.nodes[parent] == ui@.nodes[parent]);
    }
    let kids = ui.children(parent);
    let mut rows: Vec<WidgetId> = Vec::new();
    let mut i: usize = 0;
    while i < kids.len()
        invariant
            i <= kids.len(),
            rows@ == rows_among(kids@.take(i as int), is_row@, own),
        decreases kids.len() - i,
    {
        if kids[i] == own || (i < is_row.len() && is_row[i]) {
            rows.push(kids[i]);
        }
        assert(kids@.take(i + 1).drop_last() =~= kids@.take(i as int));
        i += 1;
    }
    assert(kids@.take(i as int) =~= kids@);
    let mut k: usize = 0;
    while k < rows.len() && rows[k] != own
        invariant
            k <= rows.len(),
            forall|j: int| 0 <= j < k ==> rows@[j] != own,
        decreases rows.len() - k,
    {
        k += 1;
    }
    proof {
        rows@.index_of_first_ensures(own);
    }
    if k == rows.len() {
        Stepped::Nowhere
    } else if backwards {
        if k > 0 {
            Stepped::To(rows[k - 1])
        } else {
            Stepped::Stay
        }
    } else if k + 1 < rows.len() {
        Stepped::To(rows[k + 1])
    } else {
        Stepped::Stay
    }
}

// ---------------------------------------------------------------------
// Card and CardRow
// ---------------------------------------------------------------------

/// A card: a rounded surface with a hairline between its rows.
#[derive(Debug)]
pub struct Card<M> {
    separators: Vec<M>,
}

impl<M> Card<M> {
    /// Where the hairlines are: at the top of every row but the first.
    pub closed spec fn lines(&self) -> Seq<M> {
        self.separators@
    }

    /// A card that was not laid out yet.
    pub fn new() -> (c: Card<M>)
        ensures
            c.lines().len() == 0,
    {
        Card { separators: Vec::new() }
    }

    /// Where the hairlines are.
    pub fn separators(&self) -> (s: &[M])
        ensures
            s@ == self.lines(),
    {
        self.separators.as_slice()
    }
}

impl<M: Copy> Card<M> {
    /// Note the tops of the rows after a layout: the hairlines go to all of
    /// them but the first.
    pub fn place(&mut self, tops: &Vec<M>)
        ensures
            final(self).lines() == (if tops@.len() == 0 {
                tops@
            } else {
                tops@.drop_first()
            }),
    {
        let mut out: Vec<M> = Vec::new();
        let mut i: usize = 1;
        while i < tops.len()
            invariant
                1 <= i,
                i <= tops.len() || (i == 1 && tops.len() == 0),
                out@.len() == i - 1,
                forall|k: int| 0 <= k < out@.len() ==> out@[k] == tops@[k + 1],
            decreases tops.len() - i,
        {
            out.push(tops[i]);
            i += 1;
        }
        self.separators = out;
        assert(tops@.len() > 0 ==> self.separators@ =~= tops@.drop_first());
        assert(tops@.len() == 0 ==> self.separators@ =~= tops@);
    }
}

/// The slot of a hairline: those behind the face, up to the last there is.
pub fn separator_slot(i: usize) -> (slot: u16)
    ensures
        slot == (if i < u16::MAX {
            i + 1
        } else {
            u16::MAX as int
        }),
{
    if i < 65535 {
        (i + 1) as u16
    } else {
        65535
    }
}

impl<M> Widget for Card<M> {
    open spec fn role_view(&self) -> Role {
        Role::Container
    }

    open spec fn enabled_view(&self) -> bool {
        true
    }

    open spec fn access_view(&self) -> AccessView {
        role_access(Role::Container)
    }

    fn role(&self) -> (r: Role) {
        Role::Container
    }

    fn enabled(&self) -> (r: bool) {
        true
    }

    fn accessible(&self) -> (a: Access) {
        default_access(Role::Container)
    }
}

/// One row of a card. It reacts to nothing unless it leads somewhere.
#[derive(Debug, Clone, PartialEq, Eq)]
pub struct CardRow {
    /// What it says.
    pub label: String,
    /// Whether it leads somewhere.
    pub clickable: bool,
    /// Whether it is held down.
    pub press: Pressable,
}

impl CardRow {
    /// A row that leads nowhere.
    pub fn new(label: String) -> (r: CardRow)
        ensures
            r.label@ == label@,
            !r.clickable,
            !r.press.pressed,
    {
        CardRow { label, clickable: false, press: Pressable::new() }
    }

    /// What the row says.
    pub fn label(&self) -> (s: &str)
        ensures
            s@ == self.label@,
    {
        self.label.as_str()
    }

    /// Whether the row leads somewhere.
    pub fn is_clickable(&self) -> (r: bool)
        ensures
            r == self.clickable,
    {
        self.clickable
    }

    /// Handle an event.
    pub fn event(&mut self, ev: &Event) -> (reply: Reply)
        ensures
            final(self).label == old(self).label,
            final(self).clickable == old(self).clickable,
            (final(self).press.pressed, reply) == (if old(self).clickable {
                let (pressed, reply) = press_event(old(self).press.pressed, *ev);
                (pressed, match reply {
                    Some(r) => r,
                    None => passed(),
                })
            } else {
                (old(self).press.pressed, passed())
            }),
    {
        if !self.clickable {
            return pass();
        }
        match self.press.event(ev) {
            Some(r) => r,
            None => pass(),
        }
    }

    /// Carry out an action.
    pub fn action(&self, action: &str) -> (reply: Reply)
        ensures
            reply == (if self.clickable {
                press_action(action@)
            } else {
                passed()
            }),
    {
        if self.clickable {
            self.press.action(action)
        } else {
            pass()
        }
    }

    /// The colour of the row's face, where it has one: the inner none is
    /// transparent.
    pub fn face(&self, hovered: bool) -> (c: Option<Option<ColorRole>>)
        ensures
            c == (if self.clickable {
                Some(row_face(false, hovered, self.press.pressed))
            } else {
                None
            }),
    {
        if self.clickable {
            Some(face_of(false, hovered, self.press.pressed))
        } else {
            None
        }
    }
}

impl Widget for CardRow {
    open spec fn role_view(&self) -> Role {
        if self.clickable {
            Role::Button
        } else {
            Role::Container
        }
    }

    open spec fn enabled_view(&self) -> bool {
        true
    }

    open spec fn access_view(&self) -> AccessView {
        AccessView {
            name: Some(self.label@),
            value: Some(self.label@),
            actions: if self.clickable {
                seq!["click"@, "activate"@, "focus"@]
            } else {
                Seq::empty()
            },
        }
    }

    fn role(&self) -> (r: Role) {
        if self.clickable {
            Role::Button
        } else {
            Role::Container
        }
    }

    fn enabled(&self) -> (r: bool) {
        true
    }

    fn accessible(&self) -> (a: Access) {
        let mut actions: Vec<&'static str> = Vec::new();
        if self.clickable {
            actions.push("click");
            actions.push("activate");
            actions.push("focus");
        }
        let a = Access {
            name: Some(owned(self.label.as_str())),
            value: Some(owned(self.label.as_str())),
            actions,
        };
        assert(a@.actions =~= self.access_view().actions);
        a
    }
}

} // verus!
