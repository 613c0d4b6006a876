//! Visibility, keyboard focus, hovering and the order in which a key or an
//! event is offered.

use vstd::prelude::*;

use crate::arena::{WidgetId, WidgetView};
use crate::dirty::Dirty;
use crate::event::Handled;
use crate::tree::{marked, with_state, Nodes};
use crate::ui::{Op, Ui, UiView};

verus! {

/// The flags of a widget that looks different.
pub open spec fn repaint() -> Dirty {
    Dirty { paint: true, ..Dirty::clean() }
}

/// The tree after the focus moved to `id`: both ends repaint, and both are
/// to be told, the one that lost the focus first.
pub open spec fn focus_moved<W>(
    v: UiView<W>,
    rank: Map<WidgetId, nat>,
    top: nat,
    id: WidgetId,
) -> UiView<W> {
    if v.focused == Some(id) {
        v
    } else {
        let was = v.focused;
        let told = was is Some && v.nodes.dom().contains(was->0);
        let n = if told {
            refocused(v.nodes, rank, top, was->0, false)
        } else {
            v.nodes
        };
        UiView {
            nodes: refocused(n, rank, top, id, true),
            focused: Some(id),
            pending_focus: (if told {
                v.pending_focus.push((was->0, false))
            } else {
                v.pending_focus
            }).push((id, true)),
            ..v
        }
    }
}

/// The tree after the focus was dropped: the widget that had it is to be
/// told.
pub open spec fn focus_dropped<W>(v: UiView<W>, rank: Map<WidgetId, nat>, top: nat) -> UiView<W> {
    match v.focused {
        Some(was) => UiView {
            nodes: refocused(v.nodes, rank, top, was, false),
            focused: None,
            pending_focus: v.pending_focus.push((was, false)),
            ..v
        },
        None => v,
    }
}

/// The map after the focus flag of `id` was set to `on` and the widget
/// marked for painting; nothing happens to a stale id.
pub open spec fn refocused<W>(
    m: Nodes<W>,
    rank: Map<WidgetId, nat>,
    top: nat,
    id: WidgetId,
    on: bool,
) -> Nodes<W> {
    if m.dom().contains(id) {
        marked(
            with_state(m, id, WidgetView { focused: on, ..m[id].state }),
            rank,
            top,
            id,
            repaint(),
        )
    } else {
        m
    }
}

/// The tree after a widget was shown or hidden. The server is told if the
/// widget has a group and the value is not the one it has: the one last
/// sent, or that a group is created visible. A widget without a group is
/// marked for the tree pass.
pub open spec fn revealed<W>(
    ui: UiView<W>,
    rank: Map<WidgetId, nat>,
    top: nat,
    id: WidgetId,
    visible: bool,
) -> UiView<W> {
    let m = ui.nodes;
    let st = m[id].state;
    let sent = match st.sent_visible {
        Some(v) => v,
        None => true,
    };
    if !m.dom().contains(id) {
        ui
    } else if let Some(node) = st.node {
        if sent == visible {
            UiView { nodes: with_state(m, id, WidgetView { visible, ..st }), ..ui }
        } else {
            UiView {
                nodes: with_state(m, id, WidgetView { visible, sent_visible: Some(visible), ..st }),
                ops: ui.ops.push(Op::SetVisible { node, visible }),
                ..ui
            }
        }
    } else {
        UiView {
            nodes: marked(
                with_state(m, id, WidgetView { visible, ..st }),
                rank,
                top,
                id,
                Dirty { tree: true, ..Dirty::clean() },
            ),
            ..ui
        }
    }
}

/// The Tab order of the widgets under each of `ids`: those that take focus,
/// in pre-order, leaving out what is inside a hidden widget.
pub open spec fn tab_order<W>(
    m: Nodes<W>,
    rank: Map<WidgetId, nat>,
    ids: Seq<WidgetId>,
    bound: nat,
) -> Seq<WidgetId>
    decreases bound, ids.len(),
{
    if ids.len() == 0 {
        Seq::empty()
    } else {
        let id = ids[0];
        let rest = tab_order(m, rank, ids.drop_first(), bound);
        if m.dom().contains(id) && rank[id] < bound && m[id].state.visible {
            let own = if m[id].state.focusable {
                seq![id]
            } else {
                Seq::empty()
            };
            own + tab_order(m, rank, m[id].state.children, rank[id]) + rest
        } else {
            rest
        }
    }
}

proof fn lemma_tab_concat<W>(
    m: Nodes<W>,
    rank: Map<WidgetId, nat>,
    a: Seq<WidgetId>,
    b: Seq<WidgetId>,
    bound: nat,
)
    ensures
        tab_order(m, rank, a + b, bound) == tab_order(m, rank, a, bound) + tab_order(
            m,
            rank,
            b,
            bound,
        ),
    decreases a.len(),
{
    if a.len() == 0 {
        assert(a + b =~= b);
        assert(tab_order(m, rank, a, bound) + tab_order(m, rank, b, bound) =~= tab_order(
            m,
            rank,
            b,
            bound,
        ));
    } else {
        assert((a + b).drop_first() =~= a.drop_first() + b);
        lemma_tab_concat(m, rank, a.drop_first(), b, bound);
        assert(tab_order(m, rank, a + b, bound) =~= tab_order(m, rank, a, bound) + tab_order(
            m,
            rank,
            b,
            bound,
        ));
    }
}

proof fn lemma_tab_one<W>(m: Nodes<W>, rank: Map<WidgetId, nat>, id: WidgetId, bound: nat)
    requires
        rank[id] < bound,
    ensures
        tab_order(m, rank, seq![id], bound) == (if m.dom().contains(id) && m[id].state.visible {
            (if m[id].state.focusable {
                seq![id]
            } else {
                Seq::empty()
            }) + tab_order(m, rank, m[id].state.children, rank[id])
        } else {
            Seq::empty()
        }),
{
    let ids = seq![id];
    assert(ids.drop_first() =~= Seq::<WidgetId>::empty());
    assert(tab_order(m, rank, ids.drop_first(), bound) =~= Seq::<WidgetId>::empty());
    assert(tab_order(m, rank, ids, bound) =~= (if m.dom().contains(id) && m[id].state.visible {
        (if m[id].state.focusable {
            seq![id]
        } else {
            Seq::empty()
        }) + tab_order(m, rank, m[id].state.children, rank[id])
    } else {
        Seq::empty()
    }));
}

/// Where the focus goes from position `at` of `n`, wrapping around; from
/// nowhere it goes to the first, or backwards to the last.
pub open spec fn step(at: Option<int>, n: int, backwards: bool) -> int {
    match at {
        Some(i) => if backwards {
            (i + n - 1) % n
        } else {
            (i + 1) % n
        },
        None => if backwards {
            n - 1
        } else {
            0
        },
    }
}

/// Stepping forwards and then backwards ends where it began, and so does
/// stepping backwards and then forwards.
pub proof fn tab_and_back(i: int, n: int, backwards: bool)
    requires
        0 <= i < n,
    ensures
        0 <= step(Some(i), n, backwards) < n,
        step(Some(step(Some(i), n, backwards)), n, !backwards) == i,
{
    if backwards {
        if i == 0 {
            assert((n - 1) % n == n - 1) by (nonlinear_arith)
                requires
                    n > 0,
            ;
            assert(n % n == 0) by (nonlinear_arith)
                requires
                    n > 0,
            ;
        } else {
            assert((i - 1 + n) % n == i - 1) by (nonlinear_arith)
                requires
                    0 <= i - 1 < n,
            ;
            assert(i % n == i) by (nonlinear_arith)
                requires
                    0 <= i < n,
            ;
        }
    } else {
        if i == n - 1 {
            assert(n % n == 0) by (nonlinear_arith)
                requires
                    n > 0,
            ;
            assert((n - 1) % n == n - 1) by (nonlinear_arith)
                requires
                    n > 0,
            ;
        } else {
            assert((i + 1) % n == i + 1) by (nonlinear_arith)
                requires
                    0 <= i + 1 < n,
            ;
            assert((i + n) % n == i) by (nonlinear_arith)
                requires
                    0 <= i < n,
            ;
        }
    }
}

/// The position of the first `x` in `s`.
pub open spec fn place(s: Seq<WidgetId>, x: WidgetId) -> Option<int>
    decreases s.len(),
{
    if s.len() == 0 {
        None
    } else if s[0] == x {
        Some(0)
    } else {
        match place(s.drop_first(), x) {
            Some(i) => Some(i + 1),
            None => None,
        }
    }
}

proof fn lemma_place(s: Seq<WidgetId>, x: WidgetId, i: int)
    requires
        0 <= i <= s.len(),
        forall|k: int| 0 <= k < i ==> s[k] != x,
    ensures
        i < s.len() && s[i] == x ==> place(s, x) == Some(i),
        i == s.len() ==> place(s, x) is None,
    decreases s.len(),
{
    if s.len() > 0 && i > 0 {
        let t = s.drop_first();
        assert(s[0] != x);
        assert forall|k: int| 0 <= k < i - 1 implies t[k] != x by {
            assert(t[k] == s[k + 1]);
        }
        lemma_place(t, x, i - 1);
        if i < s.len() {
            assert(t[i - 1] == s[i]);
        }
    }
}

/// The first report of `pending` that the focus has not overtaken.
pub open spec fn first_true(pending: Seq<(WidgetId, bool)>, focused: Option<WidgetId>) -> nat
    decreases pending.len(),
{
    if pending.len() == 0 || (focused == Some(pending[0].0)) == pending[0].1 {
        0
    } else {
        1 + first_true(pending.drop_first(), focused)
    }
}

/// Where a key is in its way through the tree and the app.
#[derive(Debug, Clone, Copy, PartialEq, Eq, Structural)]
pub enum KeyStage {
    /// Offered as a press, from the target up.
    Down,
    /// Offered as a release, from the target up.
    Up,
    /// Offered as text, from the target up.
    Text,
    /// Offered to the app's own handlers.
    Handlers,
    /// Moves the focus.
    Traverse,
    /// Done with.
    Done,
}

/// Where a key starts: at the target if there is one, else at the app.
pub fn first_stage(pressed: bool, has_target: bool) -> (s: KeyStage)
    ensures
        s == (if has_target {
            if pressed {
                KeyStage::Down
            } else {
                KeyStage::Up
            }
        } else if pressed {
            KeyStage::Handlers
        } else {
            KeyStage::Done
        }),
{
    if has_target {
        if pressed {
            KeyStage::Down
        } else {
            KeyStage::Up
        }
    } else if pressed {
        KeyStage::Handlers
    } else {
        KeyStage::Done
    }
}

/// Where a key goes from `stage` once somebody answered it.
pub open spec fn stage_after(stage: KeyStage, handled: Handled, has_text: bool, tab: bool) -> KeyStage {
    match stage {
        KeyStage::Down => if handled is Yes {
            KeyStage::Done
        } else if has_text {
            KeyStage::Text
        } else {
            KeyStage::Handlers
        },
        KeyStage::Text => if handled is Yes {
            KeyStage::Done
        } else {
            KeyStage::Handlers
        },
        KeyStage::Handlers => if handled is No && tab {
            KeyStage::Traverse
        } else {
            KeyStage::Done
        },
        KeyStage::Up | KeyStage::Traverse | KeyStage::Done => KeyStage::Done,
    }
}

/// Where a key goes from `stage` once somebody answered it: a press no
/// widget took is offered as the text it produced, then to the app, and a
/// Tab nobody took moves the focus. Releases stop at the widgets.
pub fn next_stage(stage: KeyStage, handled: Handled, has_text: bool, tab: bool) -> (s: KeyStage)
    ensures
        s == stage_after(stage, handled, has_text, tab),
{
    match stage {
        KeyStage::Down => if handled.is_handled() {
            KeyStage::Done
        } else if has_text {
            KeyStage::Text
        } else {
            KeyStage::Handlers
        },
        KeyStage::Text => if handled.is_handled() {
            KeyStage::Done
        } else {
            KeyStage::Handlers
        },
        KeyStage::Handlers => if !handled.is_handled() && tab {
            KeyStage::Traverse
        } else {
            KeyStage::Done
        },
        _ => KeyStage::Done,
    }
}

/// A widget always wins over an app shortcut: a key a widget took, as a
/// press or as text, ends there; and a release never reaches the app.
pub proof fn widgets_come_first(has_text: bool, tab: bool)
    ensures
        stage_after(KeyStage::Down, Handled::Yes, has_text, tab) is Done,
        stage_after(KeyStage::Text, Handled::Yes, has_text, tab) is Done,
        forall|h: Handled| stage_after(KeyStage::Up, h, has_text, tab) is Done,
{
}

impl<W> Ui<W> {
    // -- visibility ---------------------------------------------------

    /// Show or hide a widget and everything under it, without touching its
    /// layout.
    ///
    /// The server is told once, and only when the value changes. A widget
    /// whose group does not exist yet is marked instead, so that the tree
    /// pass tells it.
    pub fn set_node_visible(&mut self, id: WidgetId, visible: bool)
        requires
            old(self).wf(),
        ensures
            final(self).wf(),
            final(self).rank() == old(self).rank(),
            final(self).top() == old(self).top(),
            final(self)@ == revealed(
                old(self)@,
                old(self).rank(),
                old(self).top(),
                id,
                visible,
            ),
            final(self).space_left() == old(self).space_left(),
            final(self).still_retired(old(self)),
    {
        if !self.arena.is_live(id) {
            return;
        }
        let ghost st0 = self@.nodes[id].state;
        let node = self.arena.state(id).node;
        let sent = self.arena.state(id).sent_visible;
        let has = match sent {
            Some(v) => v,
            None => true,
        };
        match node {
            Some(n) => {
                if has != visible {
                    self.put_visible(id, visible, Some(visible));
                    self.ops.push(Op::SetVisible { node: n, visible });
                } else {
                    self.put_visible(id, visible, sent);
                }
            },
            None => {
                self.put_visible(id, visible, sent);
                self.mark(id, Dirty::tree());
            },
        }
    }

    fn put_visible(&mut self, id: WidgetId, visible: bool, sent: Option<bool>)
        requires
            old(self).wf(),
            old(self)@.nodes.dom().contains(id),
        ensures
            final(self).wf(),
            final(self).rank() == old(self).rank(),
            final(self).top() == old(self).top(),
            final(self)@ == (UiView {
                nodes: with_state(
                    old(self)@.nodes,
                    id,
                    WidgetView { visible, sent_visible: sent, ..old(self)@.nodes[id].state },
                ),
                ..old(self)@
            }),
            final(self).space_left() == old(self).space_left(),
            final(self).still_retired(old(self)),
    {
        let st = self.arena.state_mut(id);
        st.visible = visible;
        st.sent_visible = sent;
        proof {
            self.lemma_changed(
                old(self),
                id,
                WidgetView { visible, sent_visible: sent, ..old(self)@.nodes[id].state },
            );
        }
    }

    /// Whether `id` is collapsed out of its parent's layout.
    pub fn is_collapsed(&self, id: WidgetId) -> (r: bool)
        ensures
            r == (self@.nodes.dom().contains(id) && self@.nodes[id].state.collapsed),
    {
        self.arena.is_live(id) && self.arena.state(id).collapsed
    }

    // -- focus --------------------------------------------------------

    /// Whether `id` has the keyboard focus.
    pub fn is_focused(&self, id: WidgetId) -> (r: bool)
        ensures
            r == (self@.focused == Some(id)),
    {
        self.focused == Some(id)
    }

    /// Whether the pointer is inside `id`.
    pub fn is_hovered(&self, id: WidgetId) -> (r: bool)
        ensures
            r == (self@.nodes.dom().contains(id) && self@.nodes[id].state.hovered),
    {
        self.arena.is_live(id) && self.arena.state(id).hovered
    }

    /// The focused widget, if any.
    pub fn focused(&self) -> (r: Option<WidgetId>)
        ensures
            r == self@.focused,
    {
        self.focused
    }

    /// Set the focus flag of `id` and mark it for painting.
    fn put_focus(&mut self, id: WidgetId, on: bool)
        requires
            old(self).wf(),
        ensures
            final(self).wf(),
            final(self).rank() == old(self).rank(),
            final(self).top() == old(self).top(),
            final(self)@ == (UiView {
                nodes: refocused(old(self)@.nodes, old(self).rank(), old(self).top(), id, on),
                ..old(self)@
            }),
            final(self).space_left() == old(self).space_left(),
            final(self).still_retired(old(self)),
    {
        if !self.arena.is_live(id) {
            return;
        }
        let st = self.arena.state_mut(id);
        st.focused = on;
        proof {
            self.lemma_changed(
                old(self),
                id,
                WidgetView { focused: on, ..old(self)@.nodes[id].state },
            );
        }
        assert(self.still_retired(old(self)));
        self.mark(id, Dirty::paint());
    }

    /// Move the focus to `id`.
    ///
    /// The reports are queued: the widget asking may be out of its slot.
    pub fn focus(&mut self, id: WidgetId)
        requires
            old(self).wf(),
        ensures
            final(self).wf(),
            final(self).rank() == old(self).rank(),
            final(self).top() == old(self).top(),
            final(self)@ == focus_moved(old(self)@, old(self).rank(), old(self).top(), id),
            final(self).space_left() == old(self).space_left(),
            final(self).still_retired(old(self)),
    {
        if self.focused == Some(id) {
            return;
        }
        if let Some(was) = self.focused {
            if self.arena.is_live(was) {
                self.put_focus(was, false);
                self.pending_focus.push((was, false));
            }
        }
        self.focused = Some(id);
        assert(self.still_retired(old(self)));
        self.put_focus(id, true);
        self.pending_focus.push((id, true));
    }

    /// Drop the focus; the report is queued.
    pub fn unfocus(&mut self)
        requires
            old(self).wf(),
        ensures
            final(self).wf(),
            final(self).rank() == old(self).rank(),
            final(self).top() == old(self).top(),
            final(self)@ == focus_dropped(old(self)@, old(self).rank(), old(self).top()),
            final(self).space_left() == old(self).space_left(),
            final(self).still_retired(old(self)),
    {
        if let Some(was) = self.focused {
            self.focused = None;
            assert(self.still_retired(old(self)));
            self.put_focus(was, false);
            self.pending_focus.push((was, false));
        }
    }

    /// Drop the focus entirely, and say whom to tell at once.
    pub fn blur(&mut self) -> (told: Option<WidgetId>)
        requires
            old(self).wf(),
        ensures
            final(self).wf(),
            final(self).rank() == old(self).rank(),
            final(self).top() == old(self).top(),
            told == old(self)@.focused,
            final(self)@ == (match old(self)@.focused {
                Some(was) => UiView {
                    nodes: refocused(
                        old(self)@.nodes,
                        old(self).rank(),
                        old(self).top(),
                        was,
                        false,
                    ),
                    focused: None,
                    ..old(self)@
                },
                None => old(self)@,
            }),
            final(self).space_left() == old(self).space_left(),
            final(self).still_retired(old(self)),
    {
        let told = self.focused;
        if let Some(was) = told {
            self.focused = None;
            assert(self.still_retired(old(self)));
            self.put_focus(was, false);
        }
        told
    }

    /// Give the focus to `id`, which is then told at once: reports about it
    /// that were still queued are dropped.
    pub fn give_focus(&mut self, id: WidgetId)
        requires
            old(self).wf(),
        ensures
            final(self).wf(),
            final(self).rank() == old(self).rank(),
            final(self).top() == old(self).top(),
            final(self)@ == (UiView {
                nodes: refocused(
                    old(self)@.nodes,
                    old(self).rank(),
                    old(self).top(),
                    id,
                    true,
                ),
                focused: Some(id),
                pending_focus: crate::ui::outside_pairs(old(self)@.pending_focus, seq![id]),
                ..old(self)@
            }),
            final(self).space_left() == old(self).space_left(),
            final(self).still_retired(old(self)),
    {
        self.focused = Some(id);
        let mut gone: Vec<WidgetId> = Vec::new();
        gone.push(id);
        assert(gone@ =~= seq![id]);
        let kept = crate::ui::keep_pairs_outside(&self.pending_focus, &gone);
        self.pending_focus = kept;
        assert(self.still_retired(old(self)));
        self.put_focus(id, true);
    }

    /// The next focus change to report, oldest first. One that the tree has
    /// overtaken (the focus has moved again) is dropped on the way.
    pub fn next_focus_event(&mut self) -> (r: Option<(WidgetId, bool)>)
        requires
            old(self).wf(),
        ensures
            final(self).wf(),
            final(self).rank() == old(self).rank(),
            final(self).top() == old(self).top(),
            ({
                let queue = old(self)@.pending_focus;
                let k = first_true(queue, old(self)@.focused) as int;
                if k < queue.len() {
                    &&& r == Some(queue[k])
                    &&& final(self)@ == (UiView { pending_focus: queue.skip(k + 1), ..old(self)@ })
                } else {
                    &&& r is None
                    &&& final(self)@ == (UiView { pending_focus: Seq::empty(), ..old(self)@ })
                }
            }),
            final(self).space_left() == old(self).space_left(),
            final(self).still_retired(old(self)),
    {
        let ghost queue = self.pending_focus@;
        let ghost f = self.focused;
        let n: usize = self.pending_focus.len();
        let mut k: usize = 0;
        assert(queue.skip(0) =~= queue);
        while k < n
            invariant
                *self == *old(self),
                queue == self.pending_focus@,
                f == self.focused,
                n == queue.len(),
                k <= n,
                first_true(queue, f) == k + first_true(queue.skip(k as int), f),
                self.wf(),
            decreases n - k,
        {
            assert(queue.skip(k as int)[0] == queue[k as int]);
            assert(queue.skip(k as int).drop_first() =~= queue.skip(k + 1));
            let report = self.pending_focus[k];
            if (self.focused == Some(report.0)) == report.1 {
                let rest = self.pending_focus.split_off(k + 1);
                self.pending_focus = rest;
                assert(rest@ =~= queue.skip(k + 1));
                return Some(report);
            }
            k += 1;
        }
        self.pending_focus = Vec::new();
        None
    }

    fn collect_focusable(&self, id: WidgetId, out: &mut Vec<WidgetId>)
        requires
            self.wf(),
            self@.nodes.dom().contains(id),
        ensures
            final(out)@ == old(out)@ + tab_order(
                self@.nodes,
                self.rank(),
                seq![id],
                self.rank()[id] + 1,
            ),
        decreases self.rank@[id],
    {
        let ghost m = self@.nodes;
        let ghost r = self.rank@;
        proof {
            lemma_tab_one(m, r, id, r[id] + 1);
        }
        let st = self.arena.state(id);
        if !st.visible {
            assert(out@ =~= old(out)@ + Seq::<WidgetId>::empty());
            return;
        }
        if st.focusable {
            out.push(id);
        }
        let ghost own = if m[id].state.focusable {
            seq![id]
        } else {
            Seq::empty()
        };
        let kids = &st.children;
        let mut i: usize = 0;
        proof {
            assert(tab_order(m, r, kids@.take(0), r[id]) =~= Seq::<WidgetId>::empty());
            assert(out@ =~= old(out)@ + (own + tab_order(m, r, kids@.take(0), r[id])));
        }
        while i < kids.len()
            invariant
                self.wf(),
                m == self@.nodes,
                r == self.rank@,
                m.dom().contains(id),
                kids@ == m[id].state.children,
                i <= kids.len(),
                out@ == old(out)@ + (own + tab_order(m, r, kids@.take(i as int), r[id])),
            decreases kids.len() - i,
        {
            let ghost c = kids@[i as int];
            proof {
                self.tree_shape();
                crate::ui::lemma_child(m, r, self.top@, id, i as int);
                assert(kids@.take(i + 1) =~= kids@.take(i as int) + seq![c]);
                lemma_tab_concat(m, r, kids@.take(i as int), seq![c], r[id]);
                lemma_tab_one(m, r, c, r[id]);
                lemma_tab_one(m, r, c, r[c] + 1);
            }
            self.collect_focusable(kids[i], out);
            i += 1;
            assert(out@ =~= old(out)@ + (own + tab_order(m, r, kids@.take(i as int), r[id])));
        }
        assert(kids@.take(i as int) =~= kids@);
    }

    /// The Tab order, in contracts.
    pub open spec fn tabs(&self) -> Seq<WidgetId> {
        match self@.root {
            Some(root) => if self@.nodes.dom().contains(root) {
                tab_order(self@.nodes, self.rank(), seq![root], self.rank()[root] + 1)
            } else {
                Seq::empty()
            },
            None => Seq::empty(),
        }
    }

    /// Every focusable widget that is not inside a hidden one, in
    /// pre-order: the Tab order.
    pub fn focus_order(&self) -> (out: Vec<WidgetId>)
        requires
            self.wf(),
        ensures
            out@ == self.tabs(),
    {
        let mut out: Vec<WidgetId> = Vec::new();
        if let Some(root) = self.root {
            if self.arena.is_live(root) {
                self.collect_focusable(root, &mut out);
            }
        }
        assert(out@ =~= self.tabs());
        out
    }

    /// The widget the focus moves to next (or previously) in the Tab order,
    /// wrapping around; `None` if it stays where it is.
    pub fn next_focus(&self, backwards: bool) -> (r: Option<WidgetId>)
        requires
            self.wf(),
        ensures
            ({
                let order = self.tabs();
                let at = match self@.focused {
                    Some(f) => place(order, f),
                    None => None,
                };
                let target = order[step(at, order.len() as int, backwards)];
                r == if order.len() == 0 || self@.focused == Some(target) {
                    None
                } else {
                    Some(target)
                }
            }),
    {
        let order = self.focus_order();
        let n: usize = order.len();
        if n == 0 {
            return None;
        }
        let mut at: Option<usize> = None;
        if let Some(f) = self.focused {
            let mut i: usize = 0;
            proof {
                lemma_place(order@, f, 0);
            }
            while i < n
                invariant_except_break
                    n == order.len(),
                    i <= n,
                    forall|k: int| 0 <= k < i ==> order@[k] != f,
                    at is None,
                    i == n ==> place(order@, f) is None,
                ensures
                    n == order.len(),
                    match at {
                        Some(k) => place(order@, f) == Some(k as int) && k < n,
                        None => place(order@, f) is None,
                    },
                decreases n - i,
            {
                proof {
                    lemma_place(order@, f, i as int);
                }
                if order[i] == f {
                    at = Some(i);
                    break;
                }
                i += 1;
                proof {
                    lemma_place(order@, f, i as int);
                }
            }
        }
        let next: usize = match at {
            Some(i) => {
                proof {
                    tab_and_back(i as int, n as int, backwards);
                }
                if backwards {
                    if i == 0 {
                        proof {
                            lemma_wrap_back(n as int);
                        }
                        n - 1
                    } else {
                        proof {
                            lemma_wrap_less(i as int, n as int);
                        }
                        i - 1
                    }
                } else if i + 1 == n {
                    proof {
                        lemma_wrap_back(n as int);
                    }
                    0
                } else {
                    proof {
                        lemma_wrap_more(i as int, n as int);
                    }
                    i + 1
                }
            },
            None => if backwards {
                n - 1
            } else {
                0
            },
        };
        let target = order[next];
        if self.focused == Some(target) {
            None
        } else {
            Some(target)
        }
    }

    // -- offering events ----------------------------------------------

    /// The widget a key is offered to first: the focused one, else the root.
    pub fn key_target(&self) -> (r: Option<WidgetId>)
        ensures
            r == (if self@.focused is Some {
                self@.focused
            } else {
                self@.root
            }),
    {
        if self.focused.is_some() {
            self.focused
        } else {
            self.root
        }
    }

    /// Whom an event goes to after `id` answered it: nobody if it was taken,
    /// else the parent.
    pub fn bubble(&self, id: WidgetId, handled: Handled) -> (next: Option<WidgetId>)
        ensures
            next == (if handled is No && self@.nodes.dom().contains(id) {
                self@.nodes[id].state.parent
            } else {
                None
            }),
    {
        if handled.is_handled() {
            None
        } else {
            self.parent(id)
        }
    }

    /// Record that `id` was activated. At most 64 wait between two drains.
    pub fn report_activation(&mut self, id: WidgetId)
        requires
            old(self).wf(),
        ensures
            final(self).wf(),
            final(self).rank() == old(self).rank(),
            final(self).top() == old(self).top(),
            final(self)@ == (UiView {
                activations: if old(self)@.activations.len() < 64 {
                    old(self)@.activations.push(id)
                } else {
                    old(self)@.activations
                },
                ..old(self)@
            }),
            final(self).space_left() == old(self).space_left(),
            final(self).still_retired(old(self)),
    {
        if self.activations.len() < 64 {
            self.activations.push(id);
        }
    }

    /// Take the widgets activated since the last call.
    pub fn take_activations(&mut self) -> (out: Vec<WidgetId>)
        requires
            old(self).wf(),
        ensures
            final(self).wf(),
            final(self).rank() == old(self).rank(),
            final(self).top() == old(self).top(),
            out@ == old(self)@.activations,
            final(self)@ == (UiView { activations: Seq::empty(), ..old(self)@ }),
            final(self).space_left() == old(self).space_left(),
            final(self).still_retired(old(self)),
    {
        let mut out: Vec<WidgetId> = Vec::new();
        std::mem::swap(&mut out, &mut self.activations);
        out
    }

    /// Ask the app loop to stop after this event batch.
    pub fn quit(&mut self)
        requires
            old(self).wf(),
        ensures
            final(self).wf(),
            final(self).rank() == old(self).rank(),
            final(self).top() == old(self).top(),
            final(self)@ == (UiView { quit: true, ..old(self)@ }),
            final(self).space_left() == old(self).space_left(),
            final(self).still_retired(old(self)),
    {
        self.quit = true;
    }

    /// Whether [`Ui::quit`] has been called.
    pub fn should_quit(&self) -> (r: bool)
        ensures
            r == self@.quit,
    {
        self.quit
    }
}

proof fn lemma_wrap_back(n: int)
    requires
        n > 0,
    ensures
        (n - 1) % n == n - 1,
        n % n == 0,
{
    assert((n - 1) % n == n - 1) by (nonlinear_arith)
        requires
            n > 0,
    ;
    assert(n % n == 0) by (nonlinear_arith)
        requires
            n > 0,
    ;
}

proof fn lemma_wrap_less(i: int, n: int)
    requires
        0 < i < n,
    ensures
        (i + n - 1) % n == i - 1,
{
    assert((i + n - 1) % n == i - 1) by (nonlinear_arith)
        requires
            0 < i < n,
    ;
}

proof fn lemma_wrap_more(i: int, n: int)
    requires
        0 <= i,
        i + 1 < n,
    ensures
        (i + 1) % n == i + 1,
{
    assert((i + 1) % n == i + 1) by (nonlinear_arith)
        requires
            0 <= i,
            i + 1 < n,
    ;
}

} // verus!
