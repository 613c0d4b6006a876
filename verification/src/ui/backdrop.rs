//! The window's background: one rectangle behind the whole tree.

use vstd::prelude::*;

use crate::arena::NodeId;
use crate::ui::{Ui, UiView};

verus! {

/// What the background asks of the scene.
#[derive(Debug, Clone, Copy, PartialEq, Eq, Structural)]
pub enum Painting {
    /// Nothing: it is there as it should be.
    Nothing,
    /// Destroy it.
    Destroy(NodeId),
    /// Make it, in front of `before` among its siblings and so behind it on
    /// screen, and give it its size and colour.
    Create {
        /// The new node.
        node: NodeId,
        /// The root's own group.
        before: NodeId,
    },
    /// Give it its new size and colour.
    Update(NodeId),
}

/// The background of a window.
#[derive(Debug, Clone, Copy, PartialEq, Eq, Structural)]
pub struct Backdrop {
    /// Whether there is to be one.
    pub wanted: bool,
    /// Its node, once there is one.
    pub node: Option<NodeId>,
    /// Whether its size and colour were sent.
    pub sent: bool,
}

/// The group of the root widget, or none.
pub open spec fn root_group<W>(ui: UiView<W>) -> NodeId {
    match ui.root {
        Some(root) => if ui.nodes.dom().contains(root) && ui.nodes[root].state.node is Some {
            ui.nodes[root].state.node->0
        } else {
            NodeId::nothing()
        },
        None => NodeId::nothing(),
    }
}

/// What a background asks of the scene, where `same` says that its size and
/// colour are those that were sent.
pub open spec fn painting<W>(b: Backdrop, ui: UiView<W>, same: bool) -> Painting {
    if !b.wanted {
        match b.node {
            Some(node) => Painting::Destroy(node),
            None => Painting::Nothing,
        }
    } else if b.sent && same {
        Painting::Nothing
    } else {
        match b.node {
            Some(node) => Painting::Update(node),
            None => Painting::Create {
                node: NodeId(ui.next_node as u32),
                before: root_group(ui),
            },
        }
    }
}

/// A background after what it asked for was done.
pub open spec fn repainted(b: Backdrop, p: Painting) -> Backdrop {
    match p {
        Painting::Nothing => b,
        Painting::Destroy(_) => Backdrop { node: None, sent: false, ..b },
        Painting::Create { node, .. } => Backdrop { node: Some(node), sent: true, ..b },
        Painting::Update(_) => Backdrop { sent: true, ..b },
    }
}

impl Backdrop {
    /// A background that was not painted yet.
    pub fn new() -> (b: Backdrop)
        ensures
            b == (Backdrop { wanted: true, node: None, sent: false }),
    {
        Backdrop { wanted: true, node: None, sent: false }
    }

    /// Whether there is to be one.
    pub fn has_backdrop(&self) -> (r: bool)
        ensures
            r == self.wanted,
    {
        self.wanted
    }

    /// Have a background, or none.
    pub fn set_backdrop(&mut self, on: bool)
        ensures
            *final(self) == (Backdrop { wanted: on, ..*old(self) }),
    {
        self.wanted = on;
    }

    /// The look changed: whatever was sent is sent again.
    pub fn spoil(&mut self)
        ensures
            *final(self) == (Backdrop { sent: false, ..*old(self) }),
    {
        self.sent = false;
    }

    /// The background pass, where `same` says that the size and colour are
    /// those that were sent.
    pub fn pass_backdrop<W>(&mut self, ui: &mut Ui<W>, same: bool) -> (p: Painting)
        requires
            old(ui).wf(),
            old(ui)@.next_node < 0xffff_ffff,
        ensures
            final(ui).wf(),
            final(ui).rank() == old(ui).rank(),
            final(ui).top() == old(ui).top(),
            p == painting(*old(self), old(ui)@, same),
            *final(self) == repainted(*old(self), p),
            final(ui)@ == (if p is Create {
                UiView { next_node: old(ui)@.next_node + 1, ..old(ui)@ }
            } else {
                old(ui)@
            }),
            final(ui).space_left() == old(ui).space_left(),
            final(ui).still_retired(old(ui)),
    {
        if !self.wanted {
            return match self.node {
                Some(node) => {
                    self.node = None;
                    self.sent = false;
                    Painting::Destroy(node)
                },
                None => Painting::Nothing,
            };
        }
        if self.sent && same {
            return Painting::Nothing;
        }
        self.sent = true;
        match self.node {
            Some(node) => Painting::Update(node),
            None => {
                let before = ui.root_node();
                let node = ui.alloc_node();
                self.node = Some(node);
                Painting::Create { node, before }
            },
        }
    }
}

impl<W> Ui<W> {
    fn root_node(&self) -> (n: NodeId)
        requires
            self.wf(),
        ensures
            n == root_group(self@),
    {
        if let Some(root) = self.root {
            if self.arena.is_live(root) {
                if let Some(node) = self.arena.state(root).node {
                    return node;
                }
            }
        }
        NodeId::none()
    }
}

/// A background that was painted and did not change costs nothing.
pub proof fn a_painted_backdrop_rests<W>(b: Backdrop, ui: UiView<W>, later: UiView<W>, same: bool)
    ensures
        painting(repainted(b, painting(b, ui, same)), later, true) is Nothing,
{
}

} // verus!
