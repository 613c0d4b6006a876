//! The widget arena: ids, slots and per-widget framework state.
//!
//! Widgets live in a flat `Vec` of slots and refer to each other by
//! [`WidgetId`], a generational index. The slot holds the widget in an
//! `Option`: while one of the widget's own methods runs it is **taken out**
//! of its slot, and asking for it again is an error rather than a second
//! mutable borrow.

use vstd::prelude::*;

use crate::chars::{decimal_chars, dec, extend_chars, string_of};
use crate::dirty::Dirty;

verus! {

/// A handle to a widget in the arena.
///
/// Generational: a recycled slot gets a new generation, so an id kept past
/// its widget's destruction is detected rather than silently naming
/// whatever moved in.
#[derive(Debug, Clone, Copy, PartialEq, Eq, PartialOrd, Ord, Hash, Structural)]
pub struct WidgetId {
    index: u32,
    generation: u32,
}

impl WidgetId {
    /// The slot index, in contracts.
    pub closed spec fn slot(self) -> u32 {
        self.index
    }

    /// The generation, in contracts.
    pub closed spec fn age(self) -> u32 {
        self.generation
    }

    /// The slot index, for debugging and stable ordering.
    pub fn index(self) -> (r: u32)
        ensures
            r == self.slot(),
    {
        self.index
    }

    /// The generation, which is what makes a stale id detectable.
    pub fn generation(self) -> (r: u32)
        ensures
            r == self.age(),
    {
        self.generation
    }

    /// The id as text, `#index.generation`.
    pub fn text(self) -> (s: String)
        ensures
            s@ == seq!['#'] + dec(self.slot() as nat) + seq!['.'] + dec(self.age() as nat),
    {
        let mut out: Vec<char> = Vec::new();
        out.push('#');
        let index = decimal_chars(self.index as u64);
        extend_chars(&mut out, index.as_slice());
        out.push('.');
        let generation = decimal_chars(self.generation as u64);
        extend_chars(&mut out, generation.as_slice());
        assert(out@ =~= seq!['#'] + dec(self.slot() as nat) + seq!['.'] + dec(self.age() as nat));
        string_of(out.as_slice())
    }
}

/// A node of the server's scene.
#[derive(Debug, Clone, Copy, PartialEq, Eq, Hash, Structural)]
pub struct NodeId(pub u32);

impl NodeId {
    /// The id that names no node, in contracts.
    pub open spec fn nothing() -> NodeId {
        NodeId(0)
    }

    /// The id that names no node.
    pub fn none() -> (n: NodeId)
        ensures
            n == NodeId::nothing(),
    {
        NodeId(0)
    }
}

/// A rectangle of the window in whole pixels.
#[derive(Debug, Clone, Copy, PartialEq, Eq, Structural)]
pub struct Bounds {
    /// Left edge.
    pub x: i32,
    /// Top edge.
    pub y: i32,
    /// Width.
    pub w: i32,
    /// Height.
    pub h: i32,
}

/// Everything the framework knows about a widget, as opposed to what the
/// widget knows about itself.
#[derive(Debug)]
pub struct WidgetState {
    /// Parent, or `None` for a root.
    pub parent: Option<WidgetId>,
    /// Children, in paint and hit-test order (later children are on top).
    pub children: Vec<WidgetId>,
    /// Addressing name, for introspection.
    pub name: Option<String>,
    /// Where the widget is on screen, in window coordinates.
    pub bounds: Bounds,
    /// Whether Tab can move focus here.
    pub focusable: bool,
    /// Whether the pointer is inside the widget.
    pub hovered: bool,
    /// Whether this widget has the keyboard focus.
    pub focused: bool,
    /// Whether the widget is shown; a hidden one keeps its bounds.
    pub visible: bool,
    /// The visibility the server was last told, if it was told any.
    pub sent_visible: Option<bool>,
    /// Whether the widget is taken out of its parent's layout.
    pub collapsed: bool,
    /// Whether the memoized measurement still holds.
    pub measured: bool,
    /// The passes the widget still needs.
    pub flags: Dirty,
    /// The widget's own scene group; children hang under it.
    pub node: Option<NodeId>,
    /// Inner group holding the children's groups, created on demand.
    pub content: Option<NodeId>,
    /// Whether the content group clips its children.
    pub content_clip: bool,
    /// Where this widget's group was last attached: `(parent, before)`.
    pub attached: Option<(NodeId, NodeId)>,
}

/// What a [`WidgetState`] holds, as mathematical values.
pub struct WidgetView {
    /// Parent, or `None` for a root.
    pub parent: Option<WidgetId>,
    /// Children, in paint order.
    pub children: Seq<WidgetId>,
    /// Addressing name.
    pub name: Option<Seq<char>>,
    /// Where the widget is on screen.
    pub bounds: Bounds,
    /// Whether Tab can move focus here.
    pub focusable: bool,
    /// Whether the pointer is inside.
    pub hovered: bool,
    /// Whether it has the keyboard focus.
    pub focused: bool,
    /// Whether it is shown.
    pub visible: bool,
    /// The visibility last sent.
    pub sent_visible: Option<bool>,
    /// Whether it is out of its parent's layout.
    pub collapsed: bool,
    /// Whether the memoized measurement still holds.
    pub measured: bool,
    /// The passes still needed.
    pub flags: Dirty,
    /// The widget's own group.
    pub node: Option<NodeId>,
    /// The content group.
    pub content: Option<NodeId>,
    /// Whether the content group clips.
    pub content_clip: bool,
    /// Where the group was last attached.
    pub attached: Option<(NodeId, NodeId)>,
}

/// An optional string as an optional sequence of characters.
pub open spec fn text_view(s: Option<String>) -> Option<Seq<char>> {
    match s {
        Some(t) => Some(t@),
        None => None,
    }
}

impl View for WidgetState {
    type V = WidgetView;

    open spec fn view(&self) -> WidgetView {
        WidgetView {
            parent: self.parent,
            children: self.children@,
            name: text_view(self.name),
            bounds: self.bounds,
            focusable: self.focusable,
            hovered: self.hovered,
            focused: self.focused,
            visible: self.visible,
            sent_visible: self.sent_visible,
            collapsed: self.collapsed,
            measured: self.measured,
            flags: self.flags,
            node: self.node,
            content: self.content,
            content_clip: self.content_clip,
            attached: self.attached,
        }
    }
}

/// The state of a widget nothing has happened to yet: never laid out,
/// painted or attached, and therefore dirty in all three ways.
pub open spec fn fresh_view() -> WidgetView {
    WidgetView {
        parent: None,
        children: Seq::empty(),
        name: None,
        bounds: Bounds { x: 0, y: 0, w: 0, h: 0 },
        focusable: false,
        hovered: false,
        focused: false,
        visible: true,
        sent_visible: None,
        collapsed: false,
        measured: false,
        flags: Dirty { layout: true, paint: true, tree: true, ..Dirty::clean() },
        node: None,
        content: None,
        content_clip: false,
        attached: None,
    }
}

impl WidgetState {
    /// The state of a widget nothing has happened to yet.
    pub fn fresh() -> (s: WidgetState)
        ensures
            s@ == fresh_view(),
    {
        let s = WidgetState {
            parent: None,
            children: Vec::new(),
            name: None,
            bounds: Bounds { x: 0, y: 0, w: 0, h: 0 },
            focusable: false,
            hovered: false,
            focused: false,
            visible: true,
            sent_visible: None,
            collapsed: false,
            measured: false,
            flags: Dirty { layout: true, paint: true, tree: true, ..Dirty::none() },
            node: None,
            content: None,
            content_clip: false,
            attached: None,
        };
        assert(s@.children =~= Seq::<WidgetId>::empty());
        s
    }
}

/// One arena entry.
pub struct Slot<W> {
    widget: Option<W>,
    state: WidgetState,
    generation: u32,
    alive: bool,
}

/// What a live slot holds: the widget, unless it is out, and its state.
pub struct Entry<W> {
    /// The widget, or `None` while one of its own methods runs.
    pub widget: Option<W>,
    /// What the framework knows about it.
    pub state: WidgetView,
}

/// The flat store of widgets.
pub struct Arena<W> {
    slots: Vec<Slot<W>>,
    free: Vec<u32>,
}

impl<W> View for Arena<W> {
    type V = Map<WidgetId, Entry<W>>;

    /// The live widgets by id.
    closed spec fn view(&self) -> Map<WidgetId, Entry<W>> {
        Map::new(|id: WidgetId| self.holds(id), |id: WidgetId| self.entry(id))
    }
}

impl<W> Arena<W> {
    spec fn holds(&self, id: WidgetId) -> bool {
        &&& id.index < self.slots@.len()
        &&& self.slots@[id.index as int].alive
        &&& self.slots@[id.index as int].generation == id.generation
    }

    spec fn entry(&self, id: WidgetId) -> Entry<W> {
        let slot = self.slots@[id.index as int];
        Entry { widget: slot.widget, state: slot.state@ }
    }

    /// The arena's invariant: the free list names distinct dead slots, and
    /// no index is beyond what an id can hold.
    pub closed spec fn wf(&self) -> bool {
        &&& self.slots@.len() <= 0x1_0000_0000
        &&& forall|i: int|
            0 <= i < self.free@.len() ==> (#[trigger] self.free@[i]) < self.slots@.len()
                && !self.slots@[self.free@[i] as int].alive
        &&& forall|i: int, j: int|
            0 <= i < j < self.free@.len() ==> self.free@[i] != self.free@[j]
    }

    /// How many more widgets fit: free slots, and ids left for new ones.
    pub closed spec fn space_left(&self) -> int {
        self.free@.len() + 0x1_0000_0000 - self.slots@.len()
    }

    /// Whether `id` can never name a widget again.
    pub closed spec fn retired(&self, id: WidgetId) -> bool {
        &&& id.index < self.slots@.len()
        &&& {
            let slot = self.slots@[id.index as int];
            ||| id.generation < slot.generation
            ||| id.generation == slot.generation && !slot.alive && !self.free@.contains(id.index)
        }
    }

    /// A retired id names no live widget.
    pub proof fn retired_is_dead(&self, id: WidgetId)
        requires
            self.retired(id),
        ensures
            !self@.dom().contains(id),
    {
    }

    /// There are finitely many live widgets, and a machine integer counts
    /// them.
    pub proof fn finite(&self)
        requires
            self.wf(),
        ensures
            self@.dom().finite(),
            self@.dom().len() <= usize::MAX,
    {
        self.below_finite(self.slots@.len() as int);
        assert(self.slots.len() <= usize::MAX);
        assert(self.below(self.slots@.len() as int) =~= self@.dom());
    }

    proof fn below_finite(&self, k: int)
        requires
            self.wf(),
            0 <= k <= self.slots@.len(),
        ensures
            self.below(k).finite(),
            self.below(k).len() <= k,
        decreases k,
    {
        if k == 0 {
            assert(self.below(0) =~= Set::<WidgetId>::empty());
        } else {
            self.below_finite(k - 1);
            let slot = self.slots@[k - 1];
            let id = WidgetId { index: (k - 1) as u32, generation: slot.generation };
            if slot.alive {
                assert(self.below(k) =~= self.below(k - 1).insert(id));
            } else {
                assert(self.below(k) =~= self.below(k - 1));
            }
        }
    }

    /// An empty arena.
    pub fn new() -> (a: Arena<W>)
        ensures
            a.wf(),
            a@ == Map::<WidgetId, Entry<W>>::empty(),
            a.space_left() == 0x1_0000_0000,
    {
        let a = Arena { slots: Vec::new(), free: Vec::new() };
        assert(a@ =~= Map::<WidgetId, Entry<W>>::empty());
        a
    }

    /// How many more widgets fit.
    pub fn room(&self) -> (r: u64)
        requires
            self.wf(),
        ensures
            r == self.space_left() || r == u64::MAX && self.space_left() > u64::MAX,
    {
        let unused: u64 = 0x1_0000_0000 - self.slots.len() as u64;
        (self.free.len() as u64).saturating_add(unused)
    }

    /// Insert a widget, returning its id.
    pub fn insert(&mut self, widget: W, state: WidgetState) -> (id: WidgetId)
        requires
            old(self).wf(),
            old(self).space_left() > 0,
        ensures
            final(self).wf(),
            !old(self)@.dom().contains(id),
            !old(self).retired(id),
            final(self)@ == old(self)@.insert(id, Entry { widget: Some(widget), state: state@ }),
            final(self).space_left() == old(self).space_left() - 1,
            forall|other: WidgetId| old(self).retired(other) ==> final(self).retired(other),
    {
        let ghost before = self@;
        let ghost slots0 = self.slots@;
        let ghost free0 = self.free@;
        if let Some(index) = self.free.pop() {
            assert(index == free0.last());
            let generation: u32 = self.slots[index as usize].generation;
            let id = WidgetId { index, generation };
            self.slots[index as usize] = Slot { widget: Some(widget), state, generation, alive: true };
            proof {
                let e = Entry { widget: Some(widget), state: state@ };
                assert forall|o: WidgetId| self.holds(o) == (o == id || before.dom().contains(o)) by {
                    if o.index != index && o.index < slots0.len() {
                        assert(self.slots@[o.index as int] == slots0[o.index as int]);
                    }
                }
                assert(self@ =~= before.insert(id, e)) by {
                    assert forall|o: WidgetId| self@.dom().contains(o) implies self@[o] == before.insert(id, e)[o] by {
                        if o.index != index {
                            assert(self.slots@[o.index as int] == slots0[o.index as int]);
                        }
                    }
                }
                assert forall|o: WidgetId| old(self).retired(o) implies self.retired(o) by {
                    if o.index == index {
                        assert(free0.contains(index)) by {
                            assert(free0[free0.len() - 1] == index);
                        }
                    } else {
                        if self.free@.contains(o.index) {
                            let k = choose|k: int| 0 <= k < self.free@.len() && self.free@[k] == o.index;
                            assert(free0[k] == o.index);
                        }
                    }
                }
            }
            return id;
        }
        let index: u32 = self.slots.len() as u32;
        let id = WidgetId { index, generation: 1 };
        self.slots.push(Slot { widget: Some(widget), state, generation: 1, alive: true });
        proof {
            let e = Entry { widget: Some(widget), state: state@ };
            assert(self@ =~= before.insert(id, e));
            assert forall|o: WidgetId| old(self).retired(o) implies self.retired(o) by {
                assert(self.slots@[o.index as int] == slots0[o.index as int]);
            }
        }
        id
    }

    /// Free a slot. The id becomes stale for good: the slot is recycled
    /// under a new generation, unless its generation would overflow, in
    /// which case it is never used again.
    pub fn remove(&mut self, id: WidgetId) -> (widget: Option<W>)
        requires
            old(self).wf(),
        ensures
            final(self).wf(),
            final(self)@ == old(self)@.remove(id),
            old(self)@.dom().contains(id) ==> widget == old(self)@[id].widget,
            old(self)@.dom().contains(id) ==> final(self).retired(id),
            !old(self)@.dom().contains(id) ==> widget is None,
            forall|other: WidgetId| old(self).retired(other) ==> final(self).retired(other),
            final(self).space_left() >= old(self).space_left(),
    {
        let ghost before = self@;
        let ghost slots0 = self.slots@;
        let ghost free0 = self.free@;
        if !self.is_live(id) {
            assert(before.remove(id) =~= before);
            return None;
        }
        let generation: u32 = self.slots[id.index as usize].generation;
        let mut slot = Slot { widget: None, state: WidgetState::fresh(), generation, alive: false };
        let next: Option<u32> = generation.checked_add(1);
        if let Some(n) = next {
            slot.generation = n;
        }
        std::mem::swap(&mut self.slots[id.index as usize], &mut slot);
        if next.is_some() {
            self.free.push(id.index);
        }
        proof {
            assert(!free0.contains(id.index)) by {
                if free0.contains(id.index) {
                    let k = choose|k: int| 0 <= k < free0.len() && free0[k] == id.index;
                    assert(!slots0[free0[k] as int].alive);
                }
            }
            assert forall|i: int, j: int| 0 <= i < j < self.free@.len() implies self.free@[i]
                != self.free@[j] by {
                if j == free0.len() {
                    assert(free0.contains(free0[i]));
                }
            }
            assert forall|i: int| 0 <= i < self.free@.len() implies (#[trigger] self.free@[i])
                < self.slots@.len() && !self.slots@[self.free@[i] as int].alive by {
                if i < free0.len() {
                    assert(self.free@[i] == free0[i]);
                }
            }
            assert(self@ =~= before.remove(id)) by {
                assert forall|o: WidgetId| self.holds(o) == (o != id && before.dom().contains(o)) by {
                    if o.index != id.index && o.index < slots0.len() {
                        assert(self.slots@[o.index as int] == slots0[o.index as int]);
                    }
                }
                assert forall|o: WidgetId| self@.dom().contains(o) implies self@[o] == before[o] by {
                    assert(o.index != id.index);
                    assert(self.slots@[o.index as int] == slots0[o.index as int]);
                }
            }
            assert forall|o: WidgetId| old(self).retired(o) implies self.retired(o) by {
                if o.index != id.index {
                    assert(self.slots@[o.index as int] == slots0[o.index as int]);
                    if self.free@.contains(o.index) {
                        let k = choose|k: int| 0 <= k < self.free@.len() && self.free@[k] == o.index;
                        assert(free0[k] == o.index);
                    }
                }
            }
        }
        slot.widget
    }

    /// Whether `id` names a living widget.
    pub fn is_live(&self, id: WidgetId) -> (r: bool)
        ensures
            r == self@.dom().contains(id),
    {
        if (id.index as usize) < self.slots.len() {
            let slot = &self.slots[id.index as usize];
            slot.alive && slot.generation == id.generation
        } else {
            false
        }
    }

    /// What the framework knows about `id`.
    pub fn state(&self, id: WidgetId) -> (st: &WidgetState)
        requires
            self@.dom().contains(id),
        ensures
            st@ == self@[id].state,
    {
        &self.slots[id.index as usize].state
    }

    /// What the framework knows about `id`, to change.
    pub fn state_mut(&mut self, id: WidgetId) -> (st: &mut WidgetState)
        requires
            old(self).wf(),
            old(self)@.dom().contains(id),
        ensures
            (*st)@ == old(self)@[id].state,
            final(self).wf(),
            final(self)@ == old(self)@.insert(id, Entry { widget: old(self)@[id].widget, state: (*final(st))@ }),
            forall|other: WidgetId| old(self).retired(other) ==> final(self).retired(other),
            final(self).space_left() == old(self).space_left(),
    {
        &mut self.slots[id.index as usize].state
    }

    /// The widget, unless it is out of its slot.
    pub fn widget(&self, id: WidgetId) -> (w: Option<&W>)
        requires
            self@.dom().contains(id),
        ensures
            match w {
                Some(x) => self@[id].widget == Some(*x),
                None => self@[id].widget is None,
            },
    {
        self.slots[id.index as usize].widget.as_ref()
    }

    /// Put `widget` into the slot of `id` and hand back what was in it.
    pub fn replace(&mut self, id: WidgetId, widget: Option<W>) -> (was: Option<W>)
        requires
            old(self).wf(),
            old(self)@.dom().contains(id),
        ensures
            was == old(self)@[id].widget,
            final(self).wf(),
            final(self)@ == old(self)@.insert(id, Entry { widget, state: old(self)@[id].state }),
            forall|other: WidgetId| old(self).retired(other) ==> final(self).retired(other),
            final(self).space_left() == old(self).space_left(),
    {
        let mut w = widget;
        std::mem::swap(&mut self.slots[id.index as usize].widget, &mut w);
        assert(self@ =~= old(self)@.insert(id, Entry { widget, state: old(self)@[id].state }));
        w
    }

    /// The living widgets, in the order of their slots.
    pub fn ids(&self) -> (out: Vec<WidgetId>)
        requires
            self.wf(),
        ensures
            forall|id: WidgetId| #[trigger] out@.contains(id) <==> self@.dom().contains(id),
            forall|i: int, j: int|
                0 <= i < j < out@.len() ==> (#[trigger] out@[i]).slot() < (
                #[trigger] out@[j]).slot(),
    {
        let mut out: Vec<WidgetId> = Vec::new();
        let mut i: usize = 0;
        while i < self.slots.len()
            invariant
                self.wf(),
                i <= self.slots.len(),
                forall|k: int|
                    0 <= k < out@.len() ==> self.holds(#[trigger] out@[k]) && out@[k].index < i,
                forall|id: WidgetId| #[trigger]
                    self.holds(id) && id.index < i ==> out@.contains(id),
                forall|a: int, b: int|
                    0 <= a < b < out@.len() ==> (#[trigger] out@[a]).index < (
                    #[trigger] out@[b]).index,
            decreases self.slots.len() - i,
        {
            let ghost before = out@;
            if self.slots[i].alive {
                out.push(WidgetId { index: i as u32, generation: self.slots[i].generation });
            }
            proof {
                assert forall|id: WidgetId| #[trigger]
                    self.holds(id) && id.index < i + 1 implies out@.contains(id) by {
                    if id.index < i {
                        let k = choose|k: int| 0 <= k < before.len() && before[k] == id;
                        assert(out@[k] == id);
                    } else {
                        assert(out@[before.len() as int] == id);
                    }
                }
            }
            i += 1;
        }
        out
    }

    /// Number of living widgets.
    pub fn len(&self) -> (n: usize)
        requires
            self.wf(),
        ensures
            self@.dom().finite(),
            n == self@.dom().len(),
    {
        let mut n: usize = 0;
        let mut i: usize = 0;
        assert(self.below(0) =~= Set::<WidgetId>::empty());
        while i < self.slots.len()
            invariant
                self.wf(),
                i <= self.slots.len(),
                n <= i,
                self.below(i as int).finite(),
                self.below(i as int).len() == n,
            decreases self.slots.len() - i,
        {
            let slot = &self.slots[i];
            proof {
                if i <= u32::MAX {
                    let id = WidgetId { index: i as u32, generation: slot.generation };
                    if slot.alive {
                        assert(self.below(i + 1) =~= self.below(i as int).insert(id));
                    } else {
                        assert(self.below(i + 1) =~= self.below(i as int));
                    }
                }
            }
            if slot.alive {
                n += 1;
            }
            i += 1;
        }
        assert(self.below(i as int) =~= self@.dom());
        n
    }

    spec fn below(&self, k: int) -> Set<WidgetId> {
        Set::new(|id: WidgetId| self.holds(id) && id.index < k)
    }
}

} // verus!
