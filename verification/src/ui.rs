//! [`Ui`]: the widget tree, its dirty flags, focus and event routing, and
//! the mapping from widgets to scene nodes.

pub mod access;
pub mod action;
pub mod arrange;
pub mod backdrop;
pub mod focus;
pub mod growth;
pub mod hover;
pub mod keyboard;
pub mod order;
pub mod passes;
pub mod pointer;
pub mod restyle;
pub mod sending;
pub mod stand_in;

use vstd::prelude::*;

use crate::arena::{Arena, Entry, NodeId, WidgetId, WidgetState, WidgetView};
use crate::built::{born, lemma_planted_frame, planted, sizes, Built};
use crate::dirty::Dirty;
use crate::error::Error;
use crate::tree::{
    ancestors, climb, dropped, flagged, forest, lemma_ancestors, lemma_chain_link,
    lemma_climb_bound, lemma_cut, lemma_forest_below, lemma_forest_live, lemma_forest_same,
    lemma_forest_step, lemma_lit_start, lemma_lit_step, lemma_mark_trail_but, lemma_marked_shape,
    lemma_not_lit_yet, lemma_reordered, lemma_same_shape, lemma_subtree, lemma_subtree_distinct,
    lemma_unhung,
    linked, lit, mark_keeps_the_trail, marked, paints, ranked, restructures, same_shape, subtree,
    trail, trail_but, unhung, with_state, Nodes,
};

verus! {

/// One change to the server's scene.
#[derive(Debug, Clone, Copy, PartialEq, Eq, Structural)]
pub enum Op {
    /// Make a group under `parent`, in front of `before` (or last).
    CreateGroup {
        /// The new node.
        node: NodeId,
        /// The group it hangs under.
        parent: NodeId,
        /// The sibling it goes in front of.
        before: NodeId,
    },
    /// Move a node under `parent`, in front of `before` (or last).
    Reparent {
        /// The node that moves.
        node: NodeId,
        /// The group it hangs under now.
        parent: NodeId,
        /// The sibling it goes in front of.
        before: NodeId,
    },
    /// Show or hide a node.
    SetVisible {
        /// The node.
        node: NodeId,
        /// Whether it is shown.
        visible: bool,
    },
    /// Clip a group's children to it, or stop.
    SetClip {
        /// The group.
        node: NodeId,
        /// Whether it clips.
        clip: bool,
    },
    /// Give a widget's new content group what the widget's geometry asks
    /// of it: its transform, and its box if it clips.
    Fit {
        /// The widget.
        widget: WidgetId,
        /// Its content group.
        node: NodeId,
    },
    /// Destroy a node and everything under it.
    Destroy {
        /// The node.
        node: NodeId,
    },
}

/// The widget tree and everything the passes need.
///
/// One `Ui` owns one window.
pub struct Ui<W> {
    arena: Arena<W>,
    root: Option<WidgetId>,
    focused: Option<WidgetId>,
    pending_focus: Vec<(WidgetId, bool)>,
    hover_chain: Vec<WidgetId>,
    activations: Vec<WidgetId>,
    ops: Vec<Op>,
    next_node: u32,
    root_clipped: bool,
    quit: bool,
    rank: Ghost<Map<WidgetId, nat>>,
    top: Ghost<nat>,
}

/// What a [`Ui`] holds, as mathematical values.
pub struct UiView<W> {
    /// The live widgets.
    pub nodes: Nodes<W>,
    /// The root widget.
    pub root: Option<WidgetId>,
    /// The widget with the keyboard focus.
    pub focused: Option<WidgetId>,
    /// Focus changes waiting to be reported, oldest first.
    pub pending_focus: Seq<(WidgetId, bool)>,
    /// The widgets under the pointer, outermost first.
    pub hover: Seq<WidgetId>,
    /// Widgets activated since the last drain, oldest first.
    pub activations: Seq<WidgetId>,
    /// Scene changes not sent yet.
    pub ops: Seq<Op>,
    /// The next scene node to hand out.
    pub next_node: int,
    /// Whether the root's group clips to the window.
    pub root_clipped: bool,
    /// Whether the app loop is to stop.
    pub quit: bool,
}

impl<W> View for Ui<W> {
    type V = UiView<W>;

    closed spec fn view(&self) -> UiView<W> {
        UiView {
            nodes: self.arena@,
            root: self.root,
            focused: self.focused,
            pending_focus: self.pending_focus@,
            hover: self.hover_chain@,
            activations: self.activations@,
            ops: self.ops@,
            next_node: self.next_node as int,
            root_clipped: self.root_clipped,
            quit: self.quit,
        }
    }
}

impl<W> Ui<W> {
    /// A number for each widget that is larger for its parent.
    pub closed spec fn rank(&self) -> Map<WidgetId, nat> {
        self.rank@
    }

    /// A number that no rank exceeds.
    pub closed spec fn top(&self) -> nat {
        self.top@
    }

    /// How many more widgets fit.
    pub closed spec fn space_left(&self) -> int {
        self.arena.space_left()
    }

    /// Whether `id` can never name a widget again.
    pub closed spec fn retired(&self, id: WidgetId) -> bool {
        self.arena.retired(id)
    }

    spec fn stored(&self) -> bool {
        self.arena.wf()
    }

    /// The invariant of the tree: widgets and their parents and children
    /// name each other, and no widget is its own ancestor.
    pub closed spec fn wf(&self) -> bool {
        &&& self.stored()
        &&& linked(self@.nodes)
        &&& ranked(self@.nodes, self.rank@, self.top@)
        &&& self@.next_node >= 2
    }

    /// What the invariant says of parents and children.
    pub proof fn tree_shape(&self)
        requires
            self.wf(),
        ensures
            linked(self@.nodes),
            ranked(self@.nodes, self.rank(), self.top()),
    {
    }

    /// There are finitely many widgets, and a machine integer counts them.
    pub proof fn countable(&self)
        requires
            self.wf(),
        ensures
            self@.nodes.dom().finite(),
            self@.nodes.dom().len() <= usize::MAX,
    {
        self.arena.finite();
    }

    /// A retired id names no live widget.
    pub proof fn retired_is_dead(&self, id: WidgetId)
        requires
            self.retired(id),
        ensures
            !self@.nodes.dom().contains(id),
    {
        self.arena.retired_is_dead(id);
    }

    /// An id that was removed is dead for good: through whatever follows, it
    /// names no widget again, and no widget that comes into the tree later
    /// is given it.
    pub proof fn a_removed_id_is_never_given_again(states: Seq<Ui<W>>, id: WidgetId, i: int)
        requires
            0 <= i < states.len(),
            states[0].retired(id),
            forall|k: int|
                #![trigger states[k]]
                0 < k < states.len() ==> states[k].still_retired(&states[k - 1]),
        ensures
            states[i].retired(id),
            !states[i]@.nodes.dom().contains(id),
            forall|given: WidgetId| #[trigger]
                states[i]@.nodes.dom().contains(given) ==> given != id,
        decreases i,
    {
        if i > 0 {
            Ui::a_removed_id_is_never_given_again(states, id, i - 1);
            assert(states[i].still_retired(&states[i - 1]));
        }
        states[i].retired_is_dead(id);
    }

    /// The ancestors of `id`, nearest first.
    pub open spec fn ancestors(&self, id: WidgetId) -> Seq<WidgetId> {
        ancestors(self@.nodes, self.rank(), self.top(), id)
    }

    /// `id` and everything under it, in pre-order.
    pub open spec fn subtree(&self, id: WidgetId) -> Seq<WidgetId> {
        subtree(self@.nodes, self.rank(), id)
    }

    /// Nothing but the tree's shape witness may differ: the same ids can
    /// never name a widget again.
    pub open spec fn still_retired(&self, before: &Ui<W>) -> bool {
        forall|id: WidgetId| #[trigger] before.retired(id) ==> self.retired(id)
    }

    /// An empty tree: no window, no root.
    pub fn new() -> (ui: Ui<W>)
        ensures
            ui.wf(),
            ui@ == (UiView::<W> {
                nodes: Map::empty(),
                root: None,
                focused: None,
                pending_focus: Seq::empty(),
                hover: Seq::empty(),
                activations: Seq::empty(),
                ops: Seq::empty(),
                next_node: 2,
                root_clipped: false,
                quit: false,
            }),
            ui.space_left() == 0x1_0000_0000,
    {
        proof {
            reveal(linked);
            reveal(ranked);
        }
        Ui {
            arena: Arena::new(),
            root: None,
            focused: None,
            pending_focus: Vec::new(),
            hover_chain: Vec::new(),
            activations: Vec::new(),
            ops: Vec::new(),
            next_node: 2,
            root_clipped: false,
            quit: false,
            rank: Ghost(Map::empty()),
            top: Ghost(0),
        }
    }

    // -- the shape of the tree ----------------------------------------

    /// Whether `id` names a living widget.
    pub fn is_live(&self, id: WidgetId) -> (r: bool)
        ensures
            r == self@.nodes.dom().contains(id),
    {
        self.arena.is_live(id)
    }

    /// A widget's children, in paint order; none for a stale id.
    pub fn children(&self, id: WidgetId) -> (kids: Vec<WidgetId>)
        ensures
            kids@ == (if self@.nodes.dom().contains(id) {
                self@.nodes[id].state.children
            } else {
                Seq::empty()
            }),
    {
        if !self.arena.is_live(id) {
            return Vec::new();
        }
        let src = &self.arena.state(id).children;
        let mut out: Vec<WidgetId> = Vec::new();
        let mut i: usize = 0;
        while i < src.len()
            invariant
                i <= src.len(),
                out@ == src@.take(i as int),
            decreases src.len() - i,
        {
            out.push(src[i]);
            i += 1;
            assert(src@.take(i as int) =~= src@.take(i - 1).push(src@[i - 1]));
        }
        assert(src@.take(i as int) =~= src@);
        out
    }

    /// A widget's parent.
    pub fn parent(&self, id: WidgetId) -> (p: Option<WidgetId>)
        ensures
            p == (if self@.nodes.dom().contains(id) {
                self@.nodes[id].state.parent
            } else {
                None
            }),
    {
        if self.arena.is_live(id) {
            self.arena.state(id).parent
        } else {
            None
        }
    }

    /// Only what the framework knows about `id` changed, into `st`.
    spec fn changed(&self, before: &Ui<W>, id: WidgetId, st: WidgetView) -> bool {
        &&& self.stored()
        &&& self.rank@ == before.rank@
        &&& self.top@ == before.top@
        &&& self@ == (UiView { nodes: with_state(before@.nodes, id, st), ..before@ })
        &&& self.space_left() == before.space_left()
        &&& self.still_retired(before)
    }

    /// A change of state that moves no widget keeps the invariant.
    proof fn lemma_same_links(&self, before: &Ui<W>)
        requires
            before.wf(),
            self.stored(),
            self.rank@ == before.rank@,
            self.top@ == before.top@,
            same_shape(before@.nodes, self@.nodes),
            self@.next_node >= 2,
        ensures
            self.wf(),
    {
        lemma_same_shape(before@.nodes, self@.nodes, self.rank@, self.top@);
    }

    /// A change of one widget's state that moves no widget keeps the
    /// invariant.
    proof fn lemma_changed(&self, before: &Ui<W>, id: WidgetId, st: WidgetView)
        requires
            before.wf(),
            before@.nodes.dom().contains(id),
            self.changed(before, id, st),
            st.parent == before@.nodes[id].state.parent,
            st.children == before@.nodes[id].state.children,
        ensures
            self.wf(),
            same_shape(before@.nodes, self@.nodes),
    {
        assert(before@.nodes.dom() =~= self@.nodes.dom());
        self.lemma_same_links(before);
    }

    fn put_parent(&mut self, id: WidgetId, parent: Option<WidgetId>)
        requires
            old(self).stored(),
            old(self)@.nodes.dom().contains(id),
        ensures
            final(self).changed(
                old(self),
                id,
                WidgetView { parent, ..old(self)@.nodes[id].state },
            ),
    {
        let st = self.arena.state_mut(id);
        st.parent = parent;
    }

    fn put_children(&mut self, id: WidgetId, children: Vec<WidgetId>)
        requires
            old(self).stored(),
            old(self)@.nodes.dom().contains(id),
        ensures
            final(self).changed(
                old(self),
                id,
                WidgetView { children: children@, ..old(self)@.nodes[id].state },
            ),
    {
        let st = self.arena.state_mut(id);
        st.children = children;
    }

    /// Put the children of a widget in another order.
    fn reorder(&mut self, id: WidgetId, children: Vec<WidgetId>)
        requires
            old(self).wf(),
            old(self)@.nodes.dom().contains(id),
            children@.no_duplicates(),
            forall|x: WidgetId| #[trigger]
                children@.contains(x) <==> old(self)@.nodes[id].state.children.contains(x),
        ensures
            final(self).wf(),
            final(self).rank() == old(self).rank(),
            final(self).top() == old(self).top(),
            final(self)@ == (UiView {
                nodes: with_state(
                    old(self)@.nodes,
                    id,
                    WidgetView { children: children@, ..old(self)@.nodes[id].state },
                ),
                ..old(self)@
            }),
            final(self).space_left() == old(self).space_left(),
            final(self).still_retired(old(self)),
            trail(old(self)@.nodes) ==> trail(final(self)@.nodes),
    {
        proof {
            lemma_reordered(self@.nodes, self.rank@, self.top@, id, children@);
        }
        self.put_children(id, children);
    }

    fn push_child(&mut self, id: WidgetId, child: WidgetId)
        requires
            old(self).stored(),
            old(self)@.nodes.dom().contains(id),
        ensures
            final(self).changed(
                old(self),
                id,
                WidgetView {
                    children: old(self)@.nodes[id].state.children.push(child),
                    ..old(self)@.nodes[id].state
                },
            ),
    {
        let st = self.arena.state_mut(id);
        st.children.push(child);
    }

    fn add_flags(&mut self, id: WidgetId, flags: Dirty, layout: bool)
        requires
            old(self).stored(),
            old(self)@.nodes.dom().contains(id),
        ensures
            final(self).changed(
                old(self),
                id,
                flagged(old(self)@.nodes[id].state, flags, layout),
            ),
    {
        proof {
            reveal(flagged);
        }
        let st = self.arena.state_mut(id);
        st.flags.insert(flags);
        if layout {
            st.measured = false;
        }
    }

    /// Hang the detached widget `child` under `parent`, at the end.
    fn link(&mut self, parent: WidgetId, child: WidgetId)
        requires
            old(self).wf(),
            old(self)@.nodes.dom().contains(parent),
            old(self)@.nodes.dom().contains(child),
            old(self)@.nodes[child].state.parent is None,
            child != parent,
            !old(self).ancestors(parent).contains(child),
        ensures
            final(self).wf(),
            final(self)@ == (UiView {
                nodes: hung(old(self)@.nodes, parent, child),
                ..old(self)@
            }),
            final(self).space_left() == old(self).space_left(),
            final(self).still_retired(old(self)),
    {
        let ghost m = self@.nodes;
        let ghost r0 = self.rank@;
        let ghost t0 = self.top@;
        let ghost up = self.ancestors(parent);
        self.put_parent(child, Some(parent));
        self.push_child(parent, child);
        assert(self@.nodes == hung(m, parent, child));
        proof {
            lemma_hung(m, r0, t0, parent, child);
            self.rank@ = lifted(r0, up.push(parent), r0[child] + 1);
            self.top@ = t0 + r0[child] + 1;
        }
    }

    /// Take `child` from under its parent, if it has one.
    fn unlink(&mut self, child: WidgetId)
        requires
            old(self).wf(),
            old(self)@.nodes.dom().contains(child),
        ensures
            final(self).wf(),
            final(self).rank() == old(self).rank(),
            final(self).top() == old(self).top(),
            final(self)@ == (UiView { nodes: unhung(old(self)@.nodes, child), ..old(self)@ }),
            final(self).space_left() == old(self).space_left(),
            final(self).still_retired(old(self)),
    {
        let ghost m = self@.nodes;
        proof {
            lemma_unhung(m, self.rank@, self.top@, child);
        }
        if let Some(p) = self.arena.state(child).parent {
            proof {
                lemma_parent_live(m, child);
            }
            let kept = without(&self.arena.state(p).children, child);
            self.put_children(p, kept);
            self.put_parent(child, None);
            assert(self@.nodes == unhung(m, child));
        }
    }

    /// Insert a detached subtree.
    fn insert_built(&mut self, built: Built<W>) -> (id: WidgetId)
        requires
            old(self).wf(),
            built.size() <= old(self).space_left(),
        ensures
            final(self).wf(),
            planted(final(self)@.nodes, built, id, None, old(self)@.nodes.dom()),
            grown(old(self)@.nodes, final(self)@.nodes, built.size()),
            final(self)@ == (UiView { nodes: final(self)@.nodes, ..old(self)@ }),
            final(self).space_left() == old(self).space_left() - built.size(),
            final(self).still_retired(old(self)),
            !old(self).retired(id),
            trail(old(self)@.nodes) ==> trail(final(self)@.nodes),
        decreases built,
    {
        let ghost m0 = self@.nodes;
        let ghost b = built;
        proof {
            self.arena.finite();
        }
        let Built { widget, name, focusable, children } = built;
        let state = WidgetState { name, focusable, ..WidgetState::fresh() };
        let ghost total = children@;
        let id = self.arena.insert(widget, state);
        let ghost avoid = m0.dom().insert(id);
        proof {
            lemma_leaf(m0, self.rank@, self.top@, id, self.arena@[id]);
            assert(self.arena@[id].state =~= born(b, None, Seq::empty()));
            self.rank@ = self.rank@.insert(id, 0);
        }
        let ghost mut i: int = 0;
        for c in it: children
            invariant
                self.wf(),
                b == built,
                b.children@ == total,
                it.seq() == total,
                i == it.index(),
                avoid == m0.dom().insert(id),
                !m0.dom().contains(id),
                self@.nodes.dom().contains(id),
                self@.nodes[id].widget == Some(b.widget),
                self@.nodes[id].state == born(b, None, self@.nodes[id].state.children),
                self@.nodes[id].state.children.len() == i,
                forall|j: int|
                    0 <= j < i ==> planted(
                        self@.nodes,
                        #[trigger] total[j],
                        self@.nodes[id].state.children[j],
                        Some(id),
                        avoid,
                    ),
                grown(m0, self@.nodes, 1 + sizes(total.take(i))),
                self@ == (UiView { nodes: self@.nodes, ..old(self)@ }),
                self.space_left() == old(self).space_left() - 1 - sizes(total.take(i)),
                b.size() <= old(self).space_left(),
                self.still_retired(old(self)),
                !old(self).retired(id),
                trail(m0) ==> trail(self@.nodes),
        {
            let ghost n0 = self@.nodes;
            proof {
                lemma_sizes(total, i);
                assert(c == b.children@[i]);
                assert(decreases_to!(built => built.children@[i]));
            }
            let child = self.insert_built(c);
            let ghost n1 = self@.nodes;
            proof {
                lemma_ancestors(n1, self.rank@, self.top@, id);
            }
            self.link(id, child);
            let ghost n2 = self@.nodes;
            proof {
                lemma_planted_frame(n1, n2, c, child, None, Some(id), n0.dom(), avoid);
                assert(n2[id].state.children =~= n0[id].state.children.push(child));
                assert forall|j: int| 0 <= j < i + 1 implies planted(
                    n2,
                    #[trigger] total[j],
                    n2[id].state.children[j],
                    Some(id),
                    avoid,
                ) by {
                    if j < i {
                        let kid = n0[id].state.children[j];
                        assert(planted(n0, total[j], kid, Some(id), avoid));
                        lemma_planted_frame(n0, n2, total[j], kid, Some(id), Some(id), avoid, avoid);
                    }
                }
                assert(n2.dom() =~= n1.dom());
                lemma_hung_trail(n1, id, child);
                i = i + 1;
            }
        }
        assert(total.take(total.len() as int) =~= total);
        proof {
            assert(planted(self@.nodes, b, id, None, m0.dom())) by {
                lemma_planted_less(self@.nodes, b, id, None, avoid, m0.dom());
            }
        }
        id
    }

    /// Materialise a subtree, returning the id of its outermost widget.
    pub fn build(&mut self, built: Built<W>) -> (id: WidgetId)
        requires
            old(self).wf(),
            built.size() <= old(self).space_left(),
        ensures
            final(self).wf(),
            planted(final(self)@.nodes, built, id, None, old(self)@.nodes.dom()),
            grown(old(self)@.nodes, final(self)@.nodes, built.size()),
            final(self)@ == (UiView { nodes: final(self)@.nodes, ..old(self)@ }),
            final(self).space_left() == old(self).space_left() - built.size(),
            final(self).still_retired(old(self)),
            !old(self).retired(id),
            trail(old(self)@.nodes) ==> trail(final(self)@.nodes),
    {
        self.insert_built(built)
    }

    // -- dirty marking ------------------------------------------------

    /// Mark `flags` on `id` and light the matching trail up to the root,
    /// stopping as soon as an ancestor already carries all of it. A layout
    /// mark also drops the memoized measurement on the way up.
    pub fn mark(&mut self, id: WidgetId, flags: Dirty)
        requires
            old(self).wf(),
        ensures
            final(self).wf(),
            final(self).rank() == old(self).rank(),
            final(self).top() == old(self).top(),
            final(self)@ == (UiView {
                nodes: marked(old(self)@.nodes, old(self).rank(), old(self).top(), id, flags),
                ..old(self)@
            }),
            final(self).space_left() == old(self).space_left(),
            final(self).still_retired(old(self)),
            trail(old(self)@.nodes) && !flags.sub_paint && !flags.sub_tree ==> trail(final(self)@.nodes),
    {
        if !self.arena.is_live(id) {
            return;
        }
        let ghost m = self@.nodes;
        let ghost chain = self.ancestors(id);
        let sub = flags.to_sub();
        proof {
            lemma_ancestors(m, self.rank@, self.top@, id);
            lemma_marked_shape(m, self.rank@, self.top@, id, flags);
            lemma_same_shape(m, marked(m, self.rank@, self.top@, id, flags), self.rank@, self.top@);
            if trail(m) && !flags.sub_paint && !flags.sub_tree {
                mark_keeps_the_trail(m, self.rank@, self.top@, id, flags);
            }
        }
        self.add_flags(id, flags, flags.layout);
        let mut cur: Option<WidgetId> = self.arena.state(id).parent;
        let ghost mut k: int = 0;
        proof {
            lemma_lit_start(m, chain, id, flags);
        }
        assert(chain.skip(0) =~= chain);
        loop
            invariant
                self.stored(),
                m.dom().contains(id),
                linked(m),
                ranked(m, self.rank@, self.top@),
                sub == flags.trail(),
                chain == ancestors(m, self.rank@, self.top@, id),
                0 <= k <= chain.len(),
                self.rank@ == old(self).rank@,
                self.top@ == old(self).top@,
                cur == (if k < chain.len() {
                    Some(chain[k])
                } else {
                    None
                }),
                climb(m, chain, sub) == k + climb(m, chain.skip(k), sub),
                self.arena@ == lit(m, chain, k, id, flags),
                self@ == (UiView { nodes: self.arena@, ..old(self)@ }),
                self.space_left() == old(self).space_left(),
                self.still_retired(old(self)),
            ensures
                self.stored(),
                self.rank@ == old(self).rank@,
                self.top@ == old(self).top@,
                self.arena@ == marked(m, self.rank@, self.top@, id, flags),
                self@ == (UiView { nodes: self.arena@, ..old(self)@ }),
                self.space_left() == old(self).space_left(),
                self.still_retired(old(self)),
            decreases chain.len() - k,
        {
            proof {
                lemma_climb_bound(m, chain.skip(k), sub);
            }
            let p = match cur {
                Some(p) => p,
                None => {
                    break;
                },
            };
            proof {
                lemma_ancestors(m, self.rank@, self.top@, id);
                lemma_chain_link(m, self.rank@, self.top@, id, k);
                lemma_not_lit_yet(chain, k, id);
                assert(self.arena@[p].state == m[p].state);
                assert(chain.skip(k)[0] == p);
                assert(chain.skip(k).drop_first() =~= chain.skip(k + 1));
            }
            if self.arena.state(p).flags.has_all(sub) {
                break;
            }
            cur = self.arena.state(p).parent;
            self.add_flags(p, sub, flags.layout);
            proof {
                lemma_lit_step(m, chain, k, id, flags);
                k = k + 1;
            }
        }
    }

    /// Add a subtree to `parent`'s children, at the end.
    pub fn add_child(&mut self, parent: WidgetId, child: Built<W>) -> (r: Result<WidgetId, Error>)
        requires
            old(self).wf(),
            child.size() <= old(self).space_left(),
        ensures
            final(self).wf(),
            match r {
                Ok(id) => {
                    &&& old(self)@.nodes.dom().contains(parent)
                    &&& exists|n: Nodes<W>|
                        {
                            &&& #[trigger] planted(n, child, id, None, old(self)@.nodes.dom())
                            &&& grown(old(self)@.nodes, n, child.size())
                            &&& final(self)@ == (UiView {
                                nodes: joined(n, final(self).rank(), final(self).top(), parent, id),
                                ..old(self)@
                            })
                        }
                    &&& final(self).space_left() == old(self).space_left() - child.size()
                    &&& !old(self).retired(id)
                },
                Err(e) => {
                    &&& e is StaleWidget
                    &&& !old(self)@.nodes.dom().contains(parent)
                    &&& *final(self) == *old(self)
                },
            },
            final(self).still_retired(old(self)),
            trail(old(self)@.nodes) ==> trail(final(self)@.nodes),
    {
        if !self.arena.is_live(parent) {
            return Err(Error::StaleWidget);
        }
        let ghost m = self@.nodes;
        let id = self.insert_built(child);
        let ghost n = self@.nodes;
        proof {
            lemma_ancestors_old(m, n, self.rank@, self.top@, parent);
            if self.ancestors(parent).contains(id) {
                let up = self.ancestors(parent);
                let k = choose|k: int| 0 <= k < up.len() && up[k] == id;
                assert(m.dom().contains(up[k]));
            }
        }
        self.join(parent, id);
        assert(planted(n, child, id, None, m.dom()));
        Ok(id)
    }

    /// Hang the detached widget `child` under `parent` and mark both.
    fn join(&mut self, parent: WidgetId, child: WidgetId)
        requires
            old(self).wf(),
            old(self)@.nodes.dom().contains(parent),
            old(self)@.nodes.dom().contains(child),
            old(self)@.nodes[child].state.parent is None,
            child != parent,
            !old(self).ancestors(parent).contains(child),
        ensures
            final(self).wf(),
            final(self)@ == (UiView {
                nodes: joined(old(self)@.nodes, final(self).rank(), final(self).top(), parent, child),
                ..old(self)@
            }),
            final(self).space_left() == old(self).space_left(),
            final(self).still_retired(old(self)),
            trail(old(self)@.nodes) ==> trail(final(self)@.nodes),
    {
        let ghost m = self@.nodes;
        self.link(parent, child);
        let ghost n = self@.nodes;
        self.mark(parent, Dirty::tree() | Dirty::layout());
        let ghost n1 = self@.nodes;
        self.mark(child, Dirty::tree() | Dirty::layout() | Dirty::paint());
        proof {
            assert(structure() == (Dirty { tree: true, layout: true, ..Dirty::clean() }));
            if trail(m) {
                lemma_hung_trail_but(m, parent, child);
                lemma_mark_trail_but(n, self.rank@, self.top@, parent, structure(), child);
                lemma_mark_trail_but(n1, self.rank@, self.top@, child, everything(), child);
            }
        }
    }

    /// Move an already-built widget under `parent`, at the end.
    ///
    /// A widget cannot be moved under itself or under one of its own
    /// descendants.
    pub fn attach(&mut self, parent: WidgetId, child: WidgetId) -> (r: Result<(), Error>)
        requires
            old(self).wf(),
            old(self)@.nodes.dom().contains(parent) && old(self)@.nodes.dom().contains(child) ==> child
                != parent && !old(self).ancestors(parent).contains(child),
        ensures
            final(self).wf(),
            match r {
                Ok(_) => {
                    &&& old(self)@.nodes.dom().contains(parent)
                    &&& old(self)@.nodes.dom().contains(child)
                    &&& final(self)@ == (UiView {
                        nodes: joined(
                            parted(old(self)@.nodes, old(self).rank(), old(self).top(), child),
                            final(self).rank(),
                            final(self).top(),
                            parent,
                            child,
                        ),
                        ..old(self)@
                    })
                },
                Err(e) => {
                    &&& e is StaleWidget
                    &&& !(old(self)@.nodes.dom().contains(parent)
                        && old(self)@.nodes.dom().contains(child))
                    &&& *final(self) == *old(self)
                },
            },
            final(self).space_left() == old(self).space_left(),
            final(self).still_retired(old(self)),
            trail(old(self)@.nodes) ==> trail(final(self)@.nodes),
    {
        if !self.arena.is_live(parent) || !self.arena.is_live(child) {
            return Err(Error::StaleWidget);
        }
        let ghost m = self@.nodes;
        self.part(child);
        proof {
            lemma_parted(m, self.rank@, self.top@, child);
            lemma_ancestors_parted(m, self@.nodes, self.rank@, self.top@, parent, child);
        }
        self.join(parent, child);
        Ok(())
    }

    /// Take `child` from under its parent and mark the parent.
    fn part(&mut self, child: WidgetId)
        requires
            old(self).wf(),
            old(self)@.nodes.dom().contains(child),
        ensures
            final(self).wf(),
            final(self).rank() == old(self).rank(),
            final(self).top() == old(self).top(),
            final(self)@ == (UiView {
                nodes: parted(old(self)@.nodes, old(self).rank(), old(self).top(), child),
                ..old(self)@
            }),
            final(self).space_left() == old(self).space_left(),
            final(self).still_retired(old(self)),
            trail(old(self)@.nodes) ==> trail(final(self)@.nodes),
    {
        let ghost m = self@.nodes;
        if let Some(p) = self.arena.state(child).parent {
            self.unlink(child);
            proof {
                lemma_unhung(m, self.rank@, self.top@, child);
            }
            self.mark(p, Dirty::tree() | Dirty::layout());
        }
    }

    /// Append `id` and everything under it to `out`, in pre-order.
    fn collect_into(&self, id: WidgetId, out: &mut Vec<WidgetId>)
        requires
            self.wf(),
            self@.nodes.dom().contains(id),
        ensures
            final(out)@ == old(out)@ + self.subtree(id),
        decreases self.rank@[id],
    {
        let ghost m = self@.nodes;
        let ghost r = self.rank@;
        out.push(id);
        let kids = &self.arena.state(id).children;
        let mut i: usize = 0;
        assert(forest(m, r, kids@.take(0), r[id]) =~= Seq::<WidgetId>::empty());
        while i < kids.len()
            invariant
                self.wf(),
                self@.nodes == m,
                self.rank@ == r,
                m.dom().contains(id),
                kids@ == m[id].state.children,
                i <= kids.len(),
                out@ == old(out)@ + (seq![id] + forest(m, r, kids@.take(i as int), r[id])),
            decreases kids.len() - i,
        {
            proof {
                lemma_forest_step(m, r, self.top@, id, i as int);
                lemma_child(m, r, self.top@, id, i as int);
            }
            self.collect_into(kids[i], out);
            i += 1;
            assert(out@ =~= old(out)@ + (seq![id] + forest(m, r, kids@.take(i as int), r[id])));
        }
        proof {
            lemma_subtree(m, r, self.top@, id);
            assert(kids@.take(i as int) =~= kids@);
        }
    }

    /// `id` and everything under it, in pre-order; a stale id stands alone.
    pub fn collect_subtree(&self, id: WidgetId) -> (out: Vec<WidgetId>)
        requires
            self.wf(),
        ensures
            out@ == (if self@.nodes.dom().contains(id) {
                self.subtree(id)
            } else {
                seq![id]
            }),
    {
        let mut out: Vec<WidgetId> = Vec::new();
        if self.arena.is_live(id) {
            self.collect_into(id, &mut out);
            assert(out@ =~= self.subtree(id));
        } else {
            out.push(id);
            assert(out@ =~= seq![id]);
        }
        out
    }

    /// Destroy a widget and its subtree, releasing its scene nodes.
    ///
    /// One destroyed group takes the whole scene subtree with it, so only
    /// the outermost one is named to the server.
    pub fn remove(&mut self, id: WidgetId) -> (r: Result<(), Error>)
        requires
            old(self).wf(),
        ensures
            final(self).wf(),
            match r {
                Ok(_) => {
                    let gone = old(self).subtree(id);
                    &&& old(self)@.nodes.dom().contains(id)
                    &&& final(self)@ == removed(old(self)@, old(self).rank(), old(self).top(), id)
                    &&& forall|i: int|
                        0 <= i < gone.len() ==> final(self).retired(#[trigger] gone[i])
                },
                Err(e) => {
                    &&& e is StaleWidget
                    &&& !old(self)@.nodes.dom().contains(id)
                    &&& *final(self) == *old(self)
                },
            },
            final(self).still_retired(old(self)),
            final(self).rank() == old(self).rank(),
            final(self).top() == old(self).top(),
            final(self).space_left() >= old(self).space_left(),
            trail(old(self)@.nodes) ==> trail(final(self)@.nodes),
    {
        if !self.arena.is_live(id) {
            return Err(Error::StaleWidget);
        }
        let ghost m = self@.nodes;
        let ghost r0 = self.rank@;
        let ghost t0 = self.top@;
        let doomed = self.collect_subtree(id);
        let ghost gone = doomed@;
        let parent = self.arena.state(id).parent;
        let node = self.arena.state(id).node;
        self.part(id);
        let ghost n = self@.nodes;
        proof {
            lemma_parted(m, r0, t0, id);
            lemma_parted_states(m, r0, t0, id);
            lemma_parted_subtree(m, r0, t0, id);
            lemma_cut(n, r0, t0, id);
            lemma_forest_live(n, r0, seq![id], r0[id] + 1);
        }
        if parent.is_none() && self.root == Some(id) {
            self.root = None;
        }
        let ghost root1 = self.root;
        let mut i: usize = 0;
        assert(n.remove_keys(gone.take(0).to_set()) =~= n);
        while i < doomed.len()
            invariant
                self.stored(),
                doomed@ == gone,
                i <= gone.len(),
                self.rank@ == r0,
                self.top@ == t0,
                self.arena@ == n.remove_keys(gone.take(i as int).to_set()),
                forall|k: int| 0 <= k < gone.len() ==> n.dom().contains(#[trigger] gone[k]),
                forall|k: int|
                    0 <= k < gone.len() ==> n[#[trigger] gone[k]].state.focused
                        == m[gone[k]].state.focused,
                gone.no_duplicates(),
                self@ == (UiView {
                    nodes: self.arena@,
                    root: root1,
                    focused: if exists|k: int|
                        0 <= k < i && m[#[trigger] gone[k]].state.focused {
                        None
                    } else {
                        old(self)@.focused
                    },
                    ..old(self)@
                }),
                forall|k: int| 0 <= k < i ==> self.retired(#[trigger] gone[k]),
                self.space_left() >= old(self).space_left(),
                self.still_retired(old(self)),
            decreases gone.len() - i,
        {
            let d = doomed[i];
            proof {
                assert(!gone.take(i as int).contains(d)) by {
                    let part = gone.take(i as int);
                    if part.contains(d) {
                        let k = choose|k: int| 0 <= k < part.len() && part[k] == d;
                        assert(gone[k] == gone[i as int]);
                    }
                }
                assert(self.arena@.dom().contains(d));
                assert(self.arena@[d] == n[gone[i as int]]);
            }
            if self.arena.state(d).focused {
                self.focused = None;
            }
            let _gone = self.arena.remove(d);
            proof {
                lemma_take_set(gone, i as int);
                assert(self.arena@ =~= n.remove_keys(gone.take(i + 1).to_set()));
            }
            i += 1;
        }
        assert(gone.take(i as int) =~= gone);
        let hover = keep_outside(&self.hover_chain, &doomed);
        self.hover_chain = hover;
        let pending = keep_pairs_outside(&self.pending_focus, &doomed);
        self.pending_focus = pending;
        if let Some(nd) = node {
            self.ops.push(Op::Destroy { node: nd });
        }
        Ok(())
    }

    /// Make `id` the tree's root.
    pub fn set_root(&mut self, id: WidgetId) -> (r: Result<(), Error>)
        requires
            old(self).wf(),
        ensures
            final(self).wf(),
            match r {
                Ok(_) => {
                    &&& old(self)@.nodes.dom().contains(id)
                    &&& final(self)@ == (UiView {
                        nodes: marked(
                            old(self)@.nodes,
                            old(self).rank(),
                            old(self).top(),
                            id,
                            everything(),
                        ),
                        root: Some(id),
                        root_clipped: false,
                        ..old(self)@
                    })
                },
                Err(e) => {
                    &&& e is StaleWidget
                    &&& !old(self)@.nodes.dom().contains(id)
                    &&& *final(self) == *old(self)
                },
            },
            final(self).rank() == old(self).rank(),
            final(self).top() == old(self).top(),
            final(self).space_left() == old(self).space_left(),
            final(self).still_retired(old(self)),
            trail(old(self)@.nodes) ==> trail(final(self)@.nodes),
    {
        if !self.arena.is_live(id) {
            return Err(Error::StaleWidget);
        }
        self.root = Some(id);
        self.root_clipped = false;
        assert(self.still_retired(old(self)));
        self.mark(id, Dirty::layout() | Dirty::paint() | Dirty::tree());
        Ok(())
    }

    /// The root widget, if one is set.
    pub fn root(&self) -> (r: Option<WidgetId>)
        ensures
            r == self@.root,
    {
        self.root
    }
}

/// The map after the detached widget `child` was hung under `parent`.
pub open spec fn hung<W>(m: Nodes<W>, parent: WidgetId, child: WidgetId) -> Nodes<W> {
    let n = with_state(m, child, WidgetView { parent: Some(parent), ..m[child].state });
    with_state(
        n,
        parent,
        WidgetView { children: n[parent].state.children.push(child), ..n[parent].state },
    )
}

/// The ranks with those of `ids` raised by `by`.
spec fn lifted(rank: Map<WidgetId, nat>, ids: Seq<WidgetId>, by: nat) -> Map<WidgetId, nat> {
    Map::new(
        |x: WidgetId| true,
        |x: WidgetId|
            if ids.contains(x) {
                rank[x] + by
            } else {
                rank[x]
            },
    )
}

proof fn lemma_hung<W>(
    m: Nodes<W>,
    rank: Map<WidgetId, nat>,
    top: nat,
    parent: WidgetId,
    child: WidgetId,
)
    requires
        linked(m),
        ranked(m, rank, top),
        m.dom().contains(parent),
        m.dom().contains(child),
        m[child].state.parent is None,
        child != parent,
        !ancestors(m, rank, top, parent).contains(child),
    ensures
        linked(hung(m, parent, child)),
        ranked(
            hung(m, parent, child),
            lifted(rank, ancestors(m, rank, top, parent).push(parent), rank[child] + 1),
            top + rank[child] + 1,
        ),
{
    reveal(linked);
    reveal(ranked);
    let n = hung(m, parent, child);
    let up = ancestors(m, rank, top, parent);
    let ids = up.push(parent);
    let r = lifted(rank, ids, rank[child] + 1);
    assert forall|id: WidgetId, p: WidgetId|
        #![trigger n.dom().contains(id), n[p]]
        n.dom().contains(id) && n[id].state.parent == Some(p) implies n.dom().contains(p)
        && n[p].state.children.contains(id) by {
        let _ = m[p];
        if id == child {
            let k = n[parent].state.children.len() - 1;
            assert(n[parent].state.children[k] == child);
        } else {
            assert(m.dom().contains(id));
            assert(m[p].state.children.contains(id));
            let k = choose|k: int| 0 <= k < m[p].state.children.len() && m[p].state.children[k] == id;
            assert(n[p].state.children[k] == id);
        }
    }
    assert forall|id: WidgetId, i: int|
        n.dom().contains(id) && 0 <= i < n[id].state.children.len() implies n.dom().contains(
        #[trigger] n[id].state.children[i],
    ) && n[n[id].state.children[i]].state.parent == Some(id) by {
        if id == parent && i == n[id].state.children.len() - 1 {
        } else {
            assert(n[id].state.children[i] == m[id].state.children[i]);
            assert(m.dom().contains(m[id].state.children[i]));
        }
    }
    assert forall|id: WidgetId| #[trigger] n.dom().contains(id) implies n[id].state.children.no_duplicates() by {
        assert(m.dom().contains(id));
        if id == parent {
            let kids = m[parent].state.children;
            assert forall|i: int| 0 <= i < kids.len() implies kids[i] != child by {
                assert(m[m[parent].state.children[i]].state.parent == Some(parent));
            }
        }
    }
    lemma_ancestors(m, rank, top, parent);
    assert forall|id: WidgetId| #[trigger] n.dom().contains(id) implies r[id] <= top + rank[child] + 1
        && (n[id].state.parent matches Some(p) ==> r[id] < r[p]) by {
        assert(m.dom().contains(id));
        if let Some(p) = n[id].state.parent {
            if id == child {
                assert(ids[up.len() as int] == parent);
                assert(ids.contains(parent));
                assert(!ids.contains(child)) by {
                    if ids.contains(child) {
                        let k = choose|k: int| 0 <= k < ids.len() && ids[k] == child;
                        if k < up.len() {
                            assert(up[k] == child);
                        }
                    }
                }
            } else if ids.contains(id) {
                let k = choose|k: int| 0 <= k < ids.len() && ids[k] == id;
                if k < up.len() {
                    assert(up[k] == id);
                    lemma_chain_link(m, rank, top, parent, k);
                    assert(up[k + 1] == p);
                    assert(ids[k + 1] == p);
                } else {
                    assert(id == parent);
                    assert(up[0] == p);
                    assert(ids[0] == p);
                }
                assert(ids.contains(p));
            }
        }
    }
}


/// `v` without every occurrence of `x`.
fn without(v: &Vec<WidgetId>, x: WidgetId) -> (out: Vec<WidgetId>)
    ensures
        out@ == dropped(v@, x),
{
    let mut out: Vec<WidgetId> = Vec::new();
    let mut i: usize = 0;
    while i < v.len()
        invariant
            i <= v.len(),
            out@ == dropped(v@.take(i as int), x),
        decreases v.len() - i,
    {
        assert(v@.take(i + 1).drop_last() =~= v@.take(i as int));
        if v[i] != x {
            out.push(v[i]);
        }
        i += 1;
    }
    assert(v@.take(i as int) =~= v@);
    out
}

proof fn lemma_parent_live<W>(m: Nodes<W>, id: WidgetId)
    requires
        linked(m),
        m.dom().contains(id),
    ensures
        m[id].state.parent matches Some(p) ==> m.dom().contains(p),
{
    reveal(linked);
    if let Some(p) = m[id].state.parent {
        let _ = m[p];
    }
}


/// `b` holds everything `a` held, unchanged, and `count` widgets more.
pub open spec fn grown<W>(a: Nodes<W>, b: Nodes<W>, count: nat) -> bool {
    &&& forall|x: WidgetId| #[trigger] a.dom().contains(x) ==> b.dom().contains(x) && b[x] == a[x]
    &&& b.dom().finite()
    &&& b.dom().len() == a.dom().len() + count
}

proof fn lemma_sizes<W>(bs: Seq<Built<W>>, i: int)
    requires
        0 <= i < bs.len(),
    ensures
        sizes(bs.take(i + 1)) == sizes(bs.take(i)) + bs[i].size(),
        sizes(bs.take(i + 1)) <= sizes(bs),
    decreases bs.len() - i,
{
    assert(bs.take(i + 1).drop_last() =~= bs.take(i));
    if i + 1 < bs.len() {
        lemma_sizes(bs, i + 1);
    } else {
        assert(bs.take(i + 1) =~= bs);
    }
}

proof fn lemma_leaf<W>(
    m: Nodes<W>,
    rank: Map<WidgetId, nat>,
    top: nat,
    id: WidgetId,
    e: Entry<W>,
)
    requires
        linked(m),
        ranked(m, rank, top),
        !m.dom().contains(id),
        e.state.parent is None,
        e.state.children.len() == 0,
    ensures
        linked(m.insert(id, e)),
        ranked(m.insert(id, e), rank.insert(id, 0), top),
        trail(m) ==> trail(m.insert(id, e)),
{
    reveal(linked);
    reveal(ranked);
    reveal(trail);
    let n = m.insert(id, e);
    assert forall|x: WidgetId, p: WidgetId|
        #![trigger n.dom().contains(x), n[p]]
        n.dom().contains(x) && n[x].state.parent == Some(p) implies n.dom().contains(p)
        && n[p].state.children.contains(x) by {
        let _ = m[p];
        assert(m.dom().contains(x));
    }
    assert forall|x: WidgetId, i: int|
        n.dom().contains(x) && 0 <= i < n[x].state.children.len() implies n.dom().contains(
        #[trigger] n[x].state.children[i],
    ) && n[n[x].state.children[i]].state.parent == Some(x) by {
        assert(m.dom().contains(m[x].state.children[i]));
    }
    let r = rank.insert(id, 0);
    assert forall|x: WidgetId| #[trigger] n.dom().contains(x) implies r[x] <= top && (
    n[x].state.parent matches Some(p) ==> r[x] < r[p]) by {
        if x != id {
            assert(m.dom().contains(x));
            if let Some(p) = m[x].state.parent {
                let _ = m[p];
                assert(m.dom().contains(p));
            }
        }
    }
    assert forall|x: WidgetId| #[trigger] n.dom().contains(x) implies n[x].state.children.no_duplicates() by {
        if x != id {
            assert(m.dom().contains(x));
        }
    }
    if trail(m) {
        assert forall|x: WidgetId| #[trigger] n.dom().contains(x) implies (
        n[x].state.parent matches Some(p) ==> (paints(n[x].state) ==> paints(n[p].state)) && (
        restructures(n[x].state) ==> restructures(n[p].state))) by {
            if x != id {
                assert(m.dom().contains(x));
                if let Some(p) = m[x].state.parent {
                    let _ = m[p];
                    assert(m.dom().contains(p));
                }
            }
        }
    }
}

/// Hanging a widget under one that every pass looks into keeps the trail.
proof fn lemma_hung_trail<W>(m: Nodes<W>, parent: WidgetId, child: WidgetId)
    requires
        m.dom().contains(parent),
        m.dom().contains(child),
        paints(m[parent].state),
        restructures(m[parent].state),
    ensures
        trail(m) ==> trail(hung(m, parent, child)),
{
    reveal(trail);
    let n = hung(m, parent, child);
    if trail(m) {
        assert forall|x: WidgetId| #[trigger] n.dom().contains(x) implies (
        n[x].state.parent matches Some(p) ==> (paints(n[x].state) ==> paints(n[p].state)) && (
        restructures(n[x].state) ==> restructures(n[p].state))) by {
            assert(m.dom().contains(x));
        }
    }
}

proof fn lemma_planted_less<W>(
    m: Nodes<W>,
    b: Built<W>,
    id: WidgetId,
    parent: Option<WidgetId>,
    avoid: Set<WidgetId>,
    less: Set<WidgetId>,
)
    requires
        less.subset_of(avoid),
        m.dom().contains(id),
        !less.contains(id),
        m[id].widget == Some(b.widget),
        m[id].state == born(b, parent, m[id].state.children),
        m[id].state.children.len() == b.children@.len(),
        forall|i: int|
            0 <= i < b.children@.len() ==> planted(
                m,
                #[trigger] b.children@[i],
                m[id].state.children[i],
                Some(id),
                avoid,
            ),
    ensures
        planted(m, b, id, parent, less),
{
    assert forall|i: int| 0 <= i < b.children@.len() implies planted(
        m,
        #[trigger] b.children@[i],
        m[id].state.children[i],
        Some(id),
        less,
    ) by {
        let c = m[id].state.children[i];
        lemma_planted_frame(m, m, b.children@[i], c, Some(id), Some(id), avoid, less);
    }
}


/// The flags of a widget whose children changed.
pub open spec fn structure() -> Dirty {
    Dirty { tree: true, layout: true, ..Dirty::clean() }
}

/// The flags of a widget that needs every pass.
pub open spec fn everything() -> Dirty {
    Dirty { tree: true, layout: true, paint: true, ..Dirty::clean() }
}

/// The map after `child` was hung under `parent` and both were marked.
pub open spec fn joined<W>(
    m: Nodes<W>,
    rank: Map<WidgetId, nat>,
    top: nat,
    parent: WidgetId,
    child: WidgetId,
) -> Nodes<W> {
    let a = hung(m, parent, child);
    let b = marked(a, rank, top, parent, structure());
    marked(b, rank, top, child, everything())
}

/// The tree after `id` and everything under it went.
pub open spec fn removed<W>(
    ui: UiView<W>,
    rank: Map<WidgetId, nat>,
    top: nat,
    id: WidgetId,
) -> UiView<W> {
    let m = ui.nodes;
    let gone = subtree(m, rank, id);
    UiView {
        nodes: parted(m, rank, top, id).remove_keys(gone.to_set()),
        root: if m[id].state.parent is None && ui.root == Some(id) {
            None
        } else {
            ui.root
        },
        focused: if exists|i: int| 0 <= i < gone.len() && m[#[trigger] gone[i]].state.focused {
            None
        } else {
            ui.focused
        },
        hover: outside(ui.hover, gone),
        pending_focus: outside_pairs(ui.pending_focus, gone),
        ops: match m[id].state.node {
            Some(node) => ui.ops.push(Op::Destroy { node }),
            None => ui.ops,
        },
        ..ui
    }
}

/// The map after `child` was taken from under its parent, and the parent
/// marked.
pub open spec fn parted<W>(
    m: Nodes<W>,
    rank: Map<WidgetId, nat>,
    top: nat,
    child: WidgetId,
) -> Nodes<W> {
    match m[child].state.parent {
        Some(p) => marked(unhung(m, child), rank, top, p, structure()),
        None => m,
    }
}

pub proof fn lemma_parted<W>(m: Nodes<W>, rank: Map<WidgetId, nat>, top: nat, child: WidgetId)
    requires
        linked(m),
        ranked(m, rank, top),
        m.dom().contains(child),
    ensures
        parted(m, rank, top, child).dom() == m.dom(),
        parted(m, rank, top, child)[child].state.parent is None,
        same_shape(parted(m, rank, top, child), unhung(m, child)),
{
    lemma_unhung(m, rank, top, child);
    if let Some(p) = m[child].state.parent {
        lemma_marked_shape(unhung(m, child), rank, top, p, structure());
        assert(unhung(m, child).dom().contains(child));
    }
}

/// Taking a widget that is not an ancestor from its place leaves the
/// ancestors as they were.
proof fn lemma_ancestors_parted<W>(
    m: Nodes<W>,
    n: Nodes<W>,
    rank: Map<WidgetId, nat>,
    top: nat,
    id: WidgetId,
    child: WidgetId,
)
    requires
        linked(m),
        ranked(m, rank, top),
        m.dom().contains(id),
        m.dom().contains(child),
        n == parted(m, rank, top, child),
        id != child,
        !ancestors(m, rank, top, id).contains(child),
    ensures
        ancestors(n, rank, top, id) == ancestors(m, rank, top, id),
    decreases top - rank[id],
{
    lemma_parted(m, rank, top, child);
    lemma_ancestors(m, rank, top, id);
    assert(n.dom().contains(id));
    if let Some(p) = m[id].state.parent {
        let up = ancestors(m, rank, top, id);
        assert(up[0] == p);
        assert(p != child);
        assert(rank[id] < rank[up[0]]);
        assert(!ancestors(m, rank, top, p).contains(child)) by {
            let tail = ancestors(m, rank, top, p);
            if tail.contains(child) {
                let k = choose|k: int| 0 <= k < tail.len() && tail[k] == child;
                assert(up[k + 1] == child);
            }
        }
        lemma_ancestors_parted(m, n, rank, top, p, child);
        assert(rank[p] <= top) by {
            reveal(ranked);
        }
    }
}

/// The ancestors of a widget that was there before the tree grew were there
/// as well.
proof fn lemma_ancestors_old<W>(
    m: Nodes<W>,
    n: Nodes<W>,
    rank: Map<WidgetId, nat>,
    top: nat,
    id: WidgetId,
)
    requires
        linked(m),
        m.dom().contains(id),
        forall|x: WidgetId| #[trigger] m.dom().contains(x) ==> n.dom().contains(x) && n[x] == m[x],
    ensures
        forall|i: int|
            0 <= i < ancestors(n, rank, top, id).len() ==> m.dom().contains(
                #[trigger] ancestors(n, rank, top, id)[i],
            ),
    decreases top - rank[id],
{
    if let Some(p) = n[id].state.parent {
        if n.dom().contains(p) && rank[id] < rank[p] <= top {
            lemma_parent_live(m, id);
            lemma_ancestors_old(m, n, rank, top, p);
            let all = ancestors(n, rank, top, id);
            let tail = ancestors(n, rank, top, p);
            assert(all =~= seq![p] + tail);
            assert forall|i: int| 0 <= i < all.len() implies m.dom().contains(#[trigger] all[i]) by {
                if i > 0 {
                    assert(all[i] == tail[i - 1]);
                }
            }
        }
    }
}

proof fn lemma_hung_trail_but<W>(m: Nodes<W>, parent: WidgetId, child: WidgetId)
    requires
        trail(m),
        m.dom().contains(parent),
        m.dom().contains(child),
    ensures
        trail_but(hung(m, parent, child), child),
{
    reveal(trail);
    reveal(trail_but);
    let n = hung(m, parent, child);
    assert forall|x: WidgetId| #[trigger] n.dom().contains(x) && x != child implies (
    n[x].state.parent matches Some(p) ==> (paints(n[x].state) ==> paints(n[p].state)) && (
    restructures(n[x].state) ==> restructures(n[p].state))) by {
        assert(m.dom().contains(x));
    }
}


/// The part of `s` that is not in `gone`.
pub open spec fn outside(s: Seq<WidgetId>, gone: Seq<WidgetId>) -> Seq<WidgetId>
    decreases s.len(),
{
    if s.len() == 0 {
        Seq::empty()
    } else if gone.contains(s.last()) {
        outside(s.drop_last(), gone)
    } else {
        outside(s.drop_last(), gone).push(s.last())
    }
}

/// The pairs of `s` whose widget is not in `gone`.
pub open spec fn outside_pairs(
    s: Seq<(WidgetId, bool)>,
    gone: Seq<WidgetId>,
) -> Seq<(WidgetId, bool)>
    decreases s.len(),
{
    if s.len() == 0 {
        Seq::empty()
    } else if gone.contains(s.last().0) {
        outside_pairs(s.drop_last(), gone)
    } else {
        outside_pairs(s.drop_last(), gone).push(s.last())
    }
}

/// Whether `x` is one of `v`.
pub fn among(v: &Vec<WidgetId>, x: WidgetId) -> (r: bool)
    ensures
        r == v@.contains(x),
{
    let mut i: usize = 0;
    while i < v.len()
        invariant
            i <= v.len(),
            forall|k: int| 0 <= k < i ==> v@[k] != x,
        decreases v.len() - i,
    {
        if v[i] == x {
            assert(v@[i as int] == x);
            return true;
        }
        i += 1;
    }
    false
}

fn keep_outside(v: &Vec<WidgetId>, gone: &Vec<WidgetId>) -> (out: Vec<WidgetId>)
    ensures
        out@ == outside(v@, gone@),
{
    let mut out: Vec<WidgetId> = Vec::new();
    let mut i: usize = 0;
    while i < v.len()
        invariant
            i <= v.len(),
            out@ == outside(v@.take(i as int), gone@),
        decreases v.len() - i,
    {
        assert(v@.take(i + 1).drop_last() =~= v@.take(i as int));
        if !among(gone, v[i]) {
            out.push(v[i]);
        }
        i += 1;
    }
    assert(v@.take(i as int) =~= v@);
    out
}

fn keep_pairs_outside(
    v: &Vec<(WidgetId, bool)>,
    gone: &Vec<WidgetId>,
) -> (out: Vec<(WidgetId, bool)>)
    ensures
        out@ == outside_pairs(v@, gone@),
{
    let mut out: Vec<(WidgetId, bool)> = Vec::new();
    let mut i: usize = 0;
    while i < v.len()
        invariant
            i <= v.len(),
            out@ == outside_pairs(v@.take(i as int), gone@),
        decreases v.len() - i,
    {
        assert(v@.take(i + 1).drop_last() =~= v@.take(i as int));
        if !among(gone, v[i].0) {
            out.push(v[i]);
        }
        i += 1;
    }
    assert(v@.take(i as int) =~= v@);
    out
}

proof fn lemma_take_set(s: Seq<WidgetId>, i: int)
    requires
        0 <= i < s.len(),
    ensures
        s.take(i + 1).to_set() == s.take(i).to_set().insert(s[i]),
{
    let a = s.take(i + 1);
    let b = s.take(i);
    assert forall|x: WidgetId| a.contains(x) <==> b.contains(x) || x == s[i] by {
        if a.contains(x) {
            let k = choose|k: int| 0 <= k < a.len() && a[k] == x;
            if k < i {
                assert(b[k] == x);
            }
        }
        if b.contains(x) {
            let k = choose|k: int| 0 <= k < b.len() && b[k] == x;
            assert(a[k] == x);
        }
        if x == s[i] {
            assert(a[i] == x);
        }
    }
    assert(a.to_set() =~= b.to_set().insert(s[i]));
}

pub proof fn lemma_child<W>(m: Nodes<W>, rank: Map<WidgetId, nat>, top: nat, id: WidgetId, i: int)
    requires
        linked(m),
        ranked(m, rank, top),
        m.dom().contains(id),
        0 <= i < m[id].state.children.len(),
    ensures
        m.dom().contains(m[id].state.children[i]),
        rank[m[id].state.children[i]] < rank[id],
        m[m[id].state.children[i]].state.parent == Some(id),
{
    reveal(linked);
    reveal(ranked);
    let c = m[id].state.children[i];
    assert(m.dom().contains(m[id].state.children[i]));
    assert(m[c].state.parent == Some(id));
}

/// Parting a widget from its parent changes nothing but shape and flags.
proof fn lemma_parted_states<W>(m: Nodes<W>, rank: Map<WidgetId, nat>, top: nat, child: WidgetId)
    requires
        linked(m),
        ranked(m, rank, top),
        m.dom().contains(child),
    ensures
        forall|x: WidgetId| #[trigger]
            m.dom().contains(x) ==> parted(m, rank, top, child)[x].state.focused
                == m[x].state.focused,
{
    reveal(flagged);
    lemma_unhung(m, rank, top, child);
}

/// Parting a widget from its parent leaves its own subtree as it was.
proof fn lemma_parted_subtree<W>(m: Nodes<W>, rank: Map<WidgetId, nat>, top: nat, child: WidgetId)
    requires
        linked(m),
        ranked(m, rank, top),
        m.dom().contains(child),
    ensures
        subtree(parted(m, rank, top, child), rank, child) == subtree(m, rank, child),
        subtree(m, rank, child).no_duplicates(),
{
    lemma_unhung(m, rank, top, child);
    lemma_subtree_distinct(m, rank, top, seq![child], rank[child] + 1);
    if let Some(p) = m[child].state.parent {
        reveal(linked);
        reveal(ranked);
        let _ = m[p];
        let n = unhung(m, child);
        lemma_forest_below(m, n, rank, seq![child], rank[child] + 1, p);
        lemma_marked_shape(n, rank, top, p, structure());
        lemma_forest_same(
            n,
            marked(n, rank, top, p, structure()),
            rank,
            seq![child],
            rank[child] + 1,
        );
    }
}

} // verus!
