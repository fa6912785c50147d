//! Moving between the nodes of a document tree.
use vstd::prelude::*;
use crate::xml_parse::{Node, NodeId};

verus! {

/// The node that `id` names in the document of `n`, as `Document::get_node` finds it.
pub open spec fn node_in(n: Node, id: NodeId, r: Node) -> bool {
    r.id == id && r.document == n.document && *r.node_data == n.document.node_table()[id.index()]
}

/// `r` is what following the link `link` from `n` gives.
pub open spec fn follows(n: Node, link: Option<NodeId>, r: Option<Node>) -> bool {
    match link {
        Some(id) => if id.index() < n.document.node_table().len() {
            r matches Some(m) && node_in(n, id, m)
        } else {
            r is None
        },
        None => r is None,
    }
}

/// Which link a `NodeIter` follows.
#[derive(Debug, Clone, Copy, PartialEq, Eq, Structural)]
pub enum Step {
    Parent,
    PreviousSibling,
    NextSibling,
}

impl<'a> Node<'a> {
    pub fn parent(&self) -> (r: Option<Node<'a>>)
        ensures
            follows(*self, self.node_data.parent, r),
    {
        match self.node_data.parent {
            Some(id) => self.document.get_node(id),
            None => None,
        }
    }

    pub fn previous_sibling(&self) -> (r: Option<Node<'a>>)
        ensures
            follows(*self, self.node_data.previous_sibling, r),
    {
        match self.node_data.previous_sibling {
            Some(id) => self.document.get_node(id),
            None => None,
        }
    }

    /// The next node in document order after this node's subtree, when that node is a
    /// sibling of this one (its previous sibling is this node).
    pub fn next_sibling(&self) -> (r: Option<Node<'a>>)
        ensures
            r matches Some(m) ==> self.node_data.next_tree == Some(m.id) && m.document
                == self.document && m.node_data.previous_sibling == Some(self.id)
                && *m.node_data == self.document.node_table()[m.id.index()],
            (self.node_data.next_tree matches Some(id) && id.index()
                < self.document.node_table().len() && self.document.node_table()[id.index()].previous_sibling
                == Some(self.id)) ==> r is Some,
    {
        match self.node_data.next_tree {
            Some(id) => match self.document.get_node(id) {
                Some(node) => match node.node_data.previous_sibling {
                    Some(p) => if p == self.id {
                        Some(node)
                    } else {
                        None
                    },
                    None => None,
                },
                None => None,
            },
            None => None,
        }
    }

    /// The first child, which comes right after its parent in the node table.
    pub fn first_child(&self) -> (r: Option<Node<'a>>)
        ensures
            self.node_data.last_child is None ==> r is None,
            self.node_data.last_child is Some ==> (r is Some <==> self.id.index() + 1
                < self.document.node_table().len() && self.id.index() + 1 < u32::MAX),
            r matches Some(m) ==> m.id.index() == self.id.index() + 1 && node_in(*self, m.id, m),
    {
        match self.node_data.last_child {
            Some(_) => {
                let i = self.id.u32();
                if i < u32::MAX - 1 {
                    self.document.get_node(NodeId::new(i + 1))
                } else {
                    None
                }
            },
            None => None,
        }
    }

    pub fn last_child(&self) -> (r: Option<Node<'a>>)
        ensures
            follows(*self, self.node_data.last_child, r),
    {
        match self.node_data.last_child {
            Some(id) => self.document.get_node(id),
            None => None,
        }
    }

    /// This node, then its ancestors up to the root.
    pub fn ancestors(&self) -> (r: NodeIter<'a>)
        ensures
            r.current == Some(*self),
            r.step == Step::Parent,
    {
        NodeIter { current: Some(*self), step: Step::Parent }
    }

    /// This node, then its previous siblings.
    pub fn pervious_siblings(&self) -> (r: NodeIter<'a>)
        ensures
            r.current == Some(*self),
            r.step == Step::PreviousSibling,
    {
        NodeIter { current: Some(*self), step: Step::PreviousSibling }
    }

    /// This node, then its next siblings.
    pub fn next_siblings(&self) -> (r: NodeIter<'a>)
        ensures
            r.current == Some(*self),
            r.step == Step::NextSibling,
    {
        NodeIter { current: Some(*self), step: Step::NextSibling }
    }

    /// The children, from the first to the last.
    pub fn children(&self) -> (r: Children<'a>)
        ensures
            follows(*self, self.node_data.last_child, r.back),
            self.node_data.last_child is None ==> r.front is None,
            r.front matches Some(m) ==> m.id.index() == self.id.index() + 1 && node_in(*self, m.id, m),
    {
        Children { front: self.first_child(), back: self.last_child() }
    }

    pub fn has_children(&self) -> (r: bool)
        ensures
            r == self.node_data.last_child is Some,
    {
        self.node_data.last_child.is_some()
    }

    /// Follows one link.
    pub fn step(&self, step: Step) -> (r: Option<Node<'a>>)
        ensures
            step == Step::Parent ==> follows(*self, self.node_data.parent, r),
            step == Step::PreviousSibling ==> follows(*self, self.node_data.previous_sibling, r),
    {
        match step {
            Step::Parent => self.parent(),
            Step::PreviousSibling => self.previous_sibling(),
            Step::NextSibling => self.next_sibling(),
        }
    }
}

/// Walks from a node along one kind of link.
#[derive(Debug)]
pub struct NodeIter<'a> {
    pub current: Option<Node<'a>>,
    pub step: Step,
}

impl<'a> NodeIter<'a> {
    /// The node reached so far, moving on along the link.
    pub fn next_node(&mut self) -> (r: Option<Node<'a>>)
        ensures
            r == old(self).current,
            final(self).step == old(self).step,
            old(self).current is None ==> final(self).current is None,
            old(self).step == Step::Parent && old(self).current is Some ==> follows(
                old(self).current->0,
                old(self).current->0.node_data.parent,
                final(self).current,
            ),
            old(self).step == Step::PreviousSibling && old(self).current is Some ==> follows(
                old(self).current->0,
                old(self).current->0.node_data.previous_sibling,
                final(self).current,
            ),
    {
        let node = self.current;
        self.current = match node {
            Some(n) => n.step(self.step),
            None => None,
        };
        node
    }
}

/// Walks the children of a node from both ends.
#[derive(Debug)]
pub struct Children<'a> {
    pub front: Option<Node<'a>>,
    pub back: Option<Node<'a>>,
}

pub open spec fn same_node(a: Option<Node>, b: Option<Node>) -> bool {
    match (a, b) {
        (Some(x), Some(y)) => x.id == y.id,
        (None, None) => true,
        _ => false,
    }
}

impl<'a> Children<'a> {
    fn meets(&self) -> (r: bool)
        ensures
            r == same_node(self.front, self.back),
    {
        match (&self.front, &self.back) {
            (Some(x), Some(y)) => x.id == y.id,
            (None, None) => true,
            _ => false,
        }
    }

    /// The next child from the front.
    pub fn next_node(&mut self) -> (r: Option<Node<'a>>)
        ensures
            r == old(self).front,
            same_node(old(self).front, old(self).back) ==> final(self).front is None
                && final(self).back is None,
            !same_node(old(self).front, old(self).back) ==> final(self).back == old(self).back,
            !same_node(old(self).front, old(self).back) && old(self).front is Some && final(self).front is Some
                ==> old(self).front->0.node_data.next_tree == Some(final(self).front->0.id)
                && final(self).front->0.node_data.previous_sibling == Some(old(self).front->0.id),
    {
        if self.meets() {
            self.back = None;
            let node = self.front;
            self.front = None;
            node
        } else {
            let node = self.front;
            self.front = match node {
                Some(n) => n.next_sibling(),
                None => None,
            };
            node
        }
    }

    /// The next child from the back.
    pub fn next_back_node(&mut self) -> (r: Option<Node<'a>>)
        ensures
            r == old(self).back,
            same_node(old(self).front, old(self).back) ==> final(self).front is None
                && final(self).back is None,
            !same_node(old(self).front, old(self).back) ==> final(self).front == old(self).front,
            !same_node(old(self).front, old(self).back) && old(self).back is Some ==> follows(
                old(self).back->0,
                old(self).back->0.node_data.previous_sibling,
                final(self).back,
            ),
    {
        if self.meets() {
            self.front = None;
            let node = self.back;
            self.back = None;
            node
        } else {
            let node = self.back;
            self.back = match node {
                Some(n) => n.previous_sibling(),
                None => None,
            };
            node
        }
    }
}

} // verus!
