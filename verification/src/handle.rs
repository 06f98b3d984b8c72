//! Handles on the nodes of a tree, and the operations of the root.
//!
//! A handle is a tree together with the index of one of its nodes. A
//! `NodeRef` borrows the tree for reading and can be copied; a `NodeMut`
//! borrows it exclusively, so that one writer at a time changes the tree.
//! The tree itself, a `Node`, offers the same operations on its root.

use vstd::prelude::*;
use vstd::string::*;
use crate::attribute::{AttributeMut, AttributeRef};
use crate::node::{Node, NodeType};

verus! {

/// A node of a tree, for reading: the tree and the node's index in it.
#[derive(Clone, Copy)]
pub struct NodeRef<'a> {
    pub tree: &'a Node,
    pub at: usize,
}

/// A node of a tree, for changing the tree at that node: the tree,
/// exclusively borrowed, and the node's index in it.
pub struct NodeMut<'a> {
    pub tree: &'a mut Node,
    pub at: usize,
}

impl<'a> NodeRef<'a> {
    /// The handle names a node of a well-formed tree.
    pub open spec fn wf(&self) -> bool {
        self.tree.wf() && self.at < self.tree@.nodes.len()
    }

    /// Whether `r` is the handle of node `target` of `tree`, or no handle
    /// where there is no such node.
    pub open spec fn is_link(r: Option<NodeRef<'a>>, tree: &Node, target: Option<int>) -> bool {
        match r {
            Some(h) => h.wf() && *h.tree == *tree && target == Some(h.at as int),
            None => target is None,
        }
    }

    /// The node's index in its tree.
    pub fn index(&self) -> (r: usize)
        ensures
            r == self.at,
    {
        self.at
    }

    /// The node's name.
    pub fn name(&self) -> (r: &'a str)
        requires
            self.wf(),
        ensures
            r@ == self.tree@.nodes[self.at as int].name,
    {
        self.tree.name_at(self.at)
    }

    /// The node's value.
    pub fn value(&self) -> (r: &'a str)
        requires
            self.wf(),
        ensures
            r@ == self.tree@.nodes[self.at as int].value,
    {
        self.tree.value_at(self.at)
    }

    /// The node's kind.
    pub fn node_type(&self) -> (r: &'a NodeType)
        requires
            self.wf(),
        ensures
            *r == self.tree@.nodes[self.at as int].kind,
    {
        self.tree.node_type_at(self.at)
    }

    /// The node that holds this one among its children; none for the root.
    pub fn parent(&self) -> (r: Option<NodeRef<'a>>)
        requires
            self.wf(),
        ensures
            NodeRef::is_link(r, self.tree, self.tree@.parent(self.at as int)),
    {
        match self.tree.parent_at(self.at) {
            Some(j) => Some(NodeRef { tree: self.tree, at: j }),
            None => None,
        }
    }

    /// The next node in the child chain that holds this one.
    pub fn next_sibling(&self) -> (r: Option<NodeRef<'a>>)
        requires
            self.wf(),
        ensures
            NodeRef::is_link(r, self.tree, self.tree@.next_sibling(self.at as int)),
    {
        match self.tree.next_sibling_at(self.at) {
            Some(j) => Some(NodeRef { tree: self.tree, at: j }),
            None => None,
        }
    }

    /// The node before this one in the child chain that holds it.
    pub fn previous_sibling(&self) -> (r: Option<NodeRef<'a>>)
        requires
            self.wf(),
        ensures
            NodeRef::is_link(r, self.tree, self.tree@.previous_sibling(self.at as int)),
    {
        match self.tree.previous_sibling_at(self.at) {
            Some(j) => Some(NodeRef { tree: self.tree, at: j }),
            None => None,
        }
    }

    /// The first of the node's children.
    pub fn first_child(&self) -> (r: Option<NodeRef<'a>>)
        requires
            self.wf(),
        ensures
            NodeRef::is_link(r, self.tree, self.tree@.first_child(self.at as int)),
    {
        match self.tree.first_child_at(self.at) {
            Some(j) => Some(NodeRef { tree: self.tree, at: j }),
            None => None,
        }
    }

    /// The last of the node's children.
    pub fn last_child(&self) -> (r: Option<NodeRef<'a>>)
        requires
            self.wf(),
        ensures
            NodeRef::is_link(r, self.tree, self.tree@.last_child(self.at as int)),
    {
        match self.tree.last_child_at(self.at) {
            Some(j) => Some(NodeRef { tree: self.tree, at: j }),
            None => None,
        }
    }

    /// The first of the node's attributes.
    pub fn first_attribute(&self) -> (r: Option<AttributeRef<'a>>)
        requires
            self.wf(),
        ensures
            AttributeRef::is_link(r, self.tree, self.tree@.first_attribute(self.at as int)),
    {
        match self.tree.first_attribute_at(self.at) {
            Some(a) => Some(AttributeRef { tree: self.tree, at: a }),
            None => None,
        }
    }

    /// The last of the node's attributes.
    pub fn last_attribute(&self) -> (r: Option<AttributeRef<'a>>)
        requires
            self.wf(),
        ensures
            AttributeRef::is_link(r, self.tree, self.tree@.last_attribute(self.at as int)),
    {
        match self.tree.last_attribute_at(self.at) {
            Some(a) => Some(AttributeRef { tree: self.tree, at: a }),
            None => None,
        }
    }

    /// The value of the first of the node's attributes that has the given
    /// name.
    pub fn attribute(&self, name: &str) -> (r: Option<&'a str>)
        requires
            self.wf(),
        ensures
            match self.tree@.find_attribute(self.at as int, name@, 0) {
                Some(a) => r matches Some(value) && value@ == self.tree@.attrs[a].value,
                None => r is None,
            },
    {
        match self.tree.find_attribute_at(self.at, name) {
            Some(a) => Some(self.tree.attribute_value_at(a)),
            None => None,
        }
    }
}

impl<'a> NodeMut<'a> {
    /// The handle names a node of a well-formed tree.
    pub open spec fn wf(&self) -> bool {
        self.tree.wf() && self.at < self.tree@.nodes.len()
    }

    /// The tree as it stands.
    pub open spec fn current(&self) -> Node {
        *self.tree
    }

    /// The node's index in its tree.
    pub fn index(&self) -> (r: usize)
        ensures
            r == self.at,
    {
        self.at
    }

    /// The same node, for reading.
    pub fn as_ref(&self) -> (r: NodeRef<'_>)
        requires
            self.wf(),
        ensures
            r.wf(),
            *r.tree == self.current(),
            r.at == self.at,
    {
        NodeRef { tree: &*self.tree, at: self.at }
    }

    /// The node's name.
    pub fn name(&self) -> (r: &str)
        requires
            self.wf(),
        ensures
            r@ == self.current()@.nodes[self.at as int].name,
    {
        self.tree.name_at(self.at)
    }

    /// The node's value.
    pub fn value(&self) -> (r: &str)
        requires
            self.wf(),
        ensures
            r@ == self.current()@.nodes[self.at as int].value,
    {
        self.tree.value_at(self.at)
    }

    /// The node's kind.
    pub fn node_type(&self) -> (r: &NodeType)
        requires
            self.wf(),
        ensures
            *r == self.current()@.nodes[self.at as int].kind,
    {
        self.tree.node_type_at(self.at)
    }

    /// Gives the node a new name, and hands the handle back for the next
    /// change.
    pub fn set_name(&mut self, name: &str) -> (r: &mut Self)
        requires
            old(self).wf(),
        ensures
            r.wf(),
            r.at == old(self).at,
            r.tree@ == old(self).tree@.with_name(old(self).at as int, name@),
            *final(r.tree) == *final(old(self).tree),
            *final(self) == *final(r),
    {
        self.tree.set_name_at(self.at, String::from_str(name));
        self
    }

    /// Gives the node a new value, and hands the handle back for the next
    /// change.
    pub fn set_value(&mut self, value: &str) -> (r: &mut Self)
        requires
            old(self).wf(),
        ensures
            r.wf(),
            r.at == old(self).at,
            r.tree@ == old(self).tree@.with_value(old(self).at as int, value@),
            *final(r.tree) == *final(old(self).tree),
            *final(self) == *final(r),
    {
        self.tree.set_value_at(self.at, String::from_str(value));
        self
    }

    /// Gives the node a new kind, and hands the handle back for the next
    /// change.
    pub fn set_node_type(&mut self, node_type: NodeType) -> (r: &mut Self)
        requires
            old(self).wf(),
        ensures
            r.wf(),
            r.at == old(self).at,
            r.tree@ == old(self).tree@.with_kind(old(self).at as int, node_type),
            *final(r.tree) == *final(old(self).tree),
            *final(self) == *final(r),
    {
        self.tree.set_node_type_at(self.at, node_type);
        self
    }

    /// The node that holds this one among its children; none for the root. The
    /// handle that comes back borrows the tree from this one.
    pub fn parent_mut(&mut self) -> (r: Option<NodeMut<'_>>)
        requires
            old(self).wf(),
        ensures
            final(self).at == old(self).at,
            *final(final(self).tree) == *final(old(self).tree),
            match r {
                Some(h) => {
                    &&& h.wf()
                    &&& *h.tree == *old(self).tree
                    &&& old(self).tree@.parent(old(self).at as int) == Some(h.at as int)
                    &&& *final(self).tree == *final(h.tree)
                },
                None => {
                    &&& old(self).tree@.parent(old(self).at as int) is None
                    &&& *final(self).tree == *old(self).tree
                },
            },
    {
        match self.tree.parent_at(self.at) {
            Some(j) => Some(NodeMut { tree: &mut *self.tree, at: j }),
            None => None,
        }
    }

    /// The next node in the child chain that holds this one. The handle that
    /// comes back borrows the tree from this one.
    pub fn next_sibling_mut(&mut self) -> (r: Option<NodeMut<'_>>)
        requires
            old(self).wf(),
        ensures
            final(self).at == old(self).at,
            *final(final(self).tree) == *final(old(self).tree),
            match r {
                Some(h) => {
                    &&& h.wf()
                    &&& *h.tree == *old(self).tree
                    &&& old(self).tree@.next_sibling(old(self).at as int) == Some(h.at as int)
                    &&& *final(self).tree == *final(h.tree)
                },
                None => {
                    &&& old(self).tree@.next_sibling(old(self).at as int) is None
                    &&& *final(self).tree == *old(self).tree
                },
            },
    {
        match self.tree.next_sibling_at(self.at) {
            Some(j) => Some(NodeMut { tree: &mut *self.tree, at: j }),
            None => None,
        }
    }

    /// The node before this one in the child chain that holds it. The handle
    /// that comes back borrows the tree from this one.
    pub fn previous_sibling_mut(&mut self) -> (r: Option<NodeMut<'_>>)
        requires
            old(self).wf(),
        ensures
            final(self).at == old(self).at,
            *final(final(self).tree) == *final(old(self).tree),
            match r {
                Some(h) => {
                    &&& h.wf()
                    &&& *h.tree == *old(self).tree
                    &&& old(self).tree@.previous_sibling(old(self).at as int) == Some(h.at as int)
                    &&& *final(self).tree == *final(h.tree)
                },
                None => {
                    &&& old(self).tree@.previous_sibling(old(self).at as int) is None
                    &&& *final(self).tree == *old(self).tree
                },
            },
    {
        match self.tree.previous_sibling_at(self.at) {
            Some(j) => Some(NodeMut { tree: &mut *self.tree, at: j }),
            None => None,
        }
    }

    /// The first of the node's children. The handle that comes back borrows the
    /// tree from this one.
    pub fn first_child_mut(&mut self) -> (r: Option<NodeMut<'_>>)
        requires
            old(self).wf(),
        ensures
            final(self).at == old(self).at,
            *final(final(self).tree) == *final(old(self).tree),
            match r {
                Some(h) => {
                    &&& h.wf()
                    &&& *h.tree == *old(self).tree
                    &&& old(self).tree@.first_child(old(self).at as int) == Some(h.at as int)
                    &&& *final(self).tree == *final(h.tree)
                },
                None => {
                    &&& old(self).tree@.first_child(old(self).at as int) is None
                    &&& *final(self).tree == *old(self).tree
                },
            },
    {
        match self.tree.first_child_at(self.at) {
            Some(j) => Some(NodeMut { tree: &mut *self.tree, at: j }),
            None => None,
        }
    }

    /// The last of the node's children. The handle that comes back borrows the
    /// tree from this one.
    pub fn last_child_mut(&mut self) -> (r: Option<NodeMut<'_>>)
        requires
            old(self).wf(),
        ensures
            final(self).at == old(self).at,
            *final(final(self).tree) == *final(old(self).tree),
            match r {
                Some(h) => {
                    &&& h.wf()
                    &&& *h.tree == *old(self).tree
                    &&& old(self).tree@.last_child(old(self).at as int) == Some(h.at as int)
                    &&& *final(self).tree == *final(h.tree)
                },
                None => {
                    &&& old(self).tree@.last_child(old(self).at as int) is None
                    &&& *final(self).tree == *old(self).tree
                },
            },
    {
        match self.tree.last_child_at(self.at) {
            Some(j) => Some(NodeMut { tree: &mut *self.tree, at: j }),
            None => None,
        }
    }

    /// The first of the node's attributes. The handle that comes back borrows
    /// the tree from this one.
    pub fn first_attribute_mut(&mut self) -> (r: Option<AttributeMut<'_>>)
        requires
            old(self).wf(),
        ensures
            final(self).at == old(self).at,
            *final(final(self).tree) == *final(old(self).tree),
            match r {
                Some(h) => {
                    &&& h.wf()
                    &&& *h.tree == *old(self).tree
                    &&& old(self).tree@.first_attribute(old(self).at as int) == Some(h.at as int)
                    &&& *final(self).tree == *final(h.tree)
                },
                None => {
                    &&& old(self).tree@.first_attribute(old(self).at as int) is None
                    &&& *final(self).tree == *old(self).tree
                },
            },
    {
        match self.tree.first_attribute_at(self.at) {
            Some(a) => Some(AttributeMut { tree: &mut *self.tree, at: a }),
            None => None,
        }
    }

    /// The last of the node's attributes. The handle that comes back borrows
    /// the tree from this one.
    pub fn last_attribute_mut(&mut self) -> (r: Option<AttributeMut<'_>>)
        requires
            old(self).wf(),
        ensures
            final(self).at == old(self).at,
            *final(final(self).tree) == *final(old(self).tree),
            match r {
                Some(h) => {
                    &&& h.wf()
                    &&& *h.tree == *old(self).tree
                    &&& old(self).tree@.last_attribute(old(self).at as int) == Some(h.at as int)
                    &&& *final(self).tree == *final(h.tree)
                },
                None => {
                    &&& old(self).tree@.last_attribute(old(self).at as int) is None
                    &&& *final(self).tree == *old(self).tree
                },
            },
    {
        match self.tree.last_attribute_at(self.at) {
            Some(a) => Some(AttributeMut { tree: &mut *self.tree, at: a }),
            None => None,
        }
    }

    /// Adds a new element of the given name after the last child of the node,
    /// in constant time, and returns the handle of the new child.
    pub fn append_child(&mut self, name: &str) -> (r: NodeMut<'_>)
        requires
            old(self).wf(),
        ensures
            r.wf(),
            r.at == old(self).tree@.nodes.len(),
            r.tree@ == old(self).tree@.append_child(old(self).at as int, name@, NodeType::Element),
            final(self).at == old(self).at,
            *final(self).tree == *final(r.tree),
            *final(final(self).tree) == *final(old(self).tree),
    {
        let c = self.tree.append_child_at(self.at, String::from_str(name), NodeType::Element);
        NodeMut { tree: &mut *self.tree, at: c }
    }

    /// Adds a new element of the given name before the first child of the node,
    /// in constant time, and returns the handle of the new child.
    pub fn prepend_child(&mut self, name: &str) -> (r: NodeMut<'_>)
        requires
            old(self).wf(),
        ensures
            r.wf(),
            r.at == old(self).tree@.nodes.len(),
            r.tree@ == old(self).tree@.prepend_child(old(self).at as int, name@, NodeType::Element),
            final(self).at == old(self).at,
            *final(self).tree == *final(r.tree),
            *final(final(self).tree) == *final(old(self).tree),
    {
        let c = self.tree.prepend_child_at(self.at, String::from_str(name), NodeType::Element);
        NodeMut { tree: &mut *self.tree, at: c }
    }

    /// Adds a new node of the given kind, without a name, after the last child
    /// of the node, in constant time, and returns the handle of the new child.
    pub fn append_child_by_type(&mut self, node_type: NodeType) -> (r: NodeMut<'_>)
        requires
            old(self).wf(),
        ensures
            r.wf(),
            r.at == old(self).tree@.nodes.len(),
            r.tree@ == old(self).tree@.append_child(old(self).at as int, Seq::<char>::empty(), node_type),
            final(self).at == old(self).at,
            *final(self).tree == *final(r.tree),
            *final(final(self).tree) == *final(old(self).tree),
    {
        let c = self.tree.append_child_at(self.at, String::new(), node_type);
        NodeMut { tree: &mut *self.tree, at: c }
    }

    /// Adds a new node of the given kind, without a name, before the first
    /// child of the node, in constant time, and returns the handle of the new
    /// child.
    pub fn prepend_child_by_type(&mut self, node_type: NodeType) -> (r: NodeMut<'_>)
        requires
            old(self).wf(),
        ensures
            r.wf(),
            r.at == old(self).tree@.nodes.len(),
            r.tree@ == old(self).tree@.prepend_child(old(self).at as int, Seq::<char>::empty(), node_type),
            final(self).at == old(self).at,
            *final(self).tree == *final(r.tree),
            *final(final(self).tree) == *final(old(self).tree),
    {
        let c = self.tree.prepend_child_at(self.at, String::new(), node_type);
        NodeMut { tree: &mut *self.tree, at: c }
    }

    /// Adds a new element of the given name right after the child with
    /// index `sibling`, in constant time, and returns the handle of the new
    /// child. The sibling must be a child of this node: where it is not,
    /// nothing is changed and `None` comes back.
    pub fn insert_child_after(&mut self, name: &str, sibling: usize) -> (r: Option<NodeMut<'_>>)
        requires
            old(self).wf(),
        ensures
            final(self).at == old(self).at,
            *final(final(self).tree) == *final(old(self).tree),
            match r {
                Some(h) => {
                    &&& old(self).tree@.is_child_of(sibling as int, old(self).at as int)
                    &&& h.wf()
                    &&& h.at == old(self).tree@.nodes.len()
                    &&& h.tree@ == old(self).tree@.insert_child_after(
                        old(self).at as int,
                        sibling as int,
                        name@,
                    )
                    &&& *final(self).tree == *final(h.tree)
                },
                None => {
                    &&& !old(self).tree@.is_child_of(sibling as int, old(self).at as int)
                    &&& *final(self).tree == *old(self).tree
                },
            },
    {
        if self.tree.is_child_at(sibling, self.at) {
            let c = self.tree.insert_child_after_at(self.at, sibling, String::from_str(name));
            Some(NodeMut { tree: &mut *self.tree, at: c })
        } else {
            None
        }
    }

    /// Adds a new element of the given name right before the child with
    /// index `sibling`, in constant time, and returns the handle of the new
    /// child. The sibling must be a child of this node: where it is not,
    /// nothing is changed and `None` comes back.
    pub fn insert_child_before(&mut self, name: &str, sibling: usize) -> (r: Option<NodeMut<'_>>)
        requires
            old(self).wf(),
        ensures
            final(self).at == old(self).at,
            *final(final(self).tree) == *final(old(self).tree),
            match r {
                Some(h) => {
                    &&& old(self).tree@.is_child_of(sibling as int, old(self).at as int)
                    &&& h.wf()
                    &&& h.at == old(self).tree@.nodes.len()
                    &&& h.tree@ == old(self).tree@.insert_child_before(
                        old(self).at as int,
                        sibling as int,
                        name@,
                    )
                    &&& *final(self).tree == *final(h.tree)
                },
                None => {
                    &&& !old(self).tree@.is_child_of(sibling as int, old(self).at as int)
                    &&& *final(self).tree == *old(self).tree
                },
            },
    {
        if self.tree.is_child_at(sibling, self.at) {
            let c = self.tree.insert_child_before_at(self.at, sibling, String::from_str(name));
            Some(NodeMut { tree: &mut *self.tree, at: c })
        } else {
            None
        }
    }

    /// Adds a new attribute after the last attribute of the node, in constant
    /// time, and
    /// returns its handle.
    pub fn append_attribute(&mut self, name: &str, value: &str) -> (r: AttributeMut<'_>)
        requires
            old(self).wf(),
        ensures
            r.wf(),
            r.at == old(self).tree@.attrs.len(),
            r.tree@ == old(self).tree@.append_attribute(old(self).at as int, name@, value@),
            final(self).at == old(self).at,
            *final(self).tree == *final(r.tree),
            *final(final(self).tree) == *final(old(self).tree),
    {
        let a = self.tree.append_attribute_at(self.at, String::from_str(name), String::from_str(value));
        AttributeMut { tree: &mut *self.tree, at: a }
    }

    /// Adds a new attribute before the first attribute of the node, in constant
    /// time, and
    /// returns its handle.
    pub fn prepend_attribute(&mut self, name: &str, value: &str) -> (r: AttributeMut<'_>)
        requires
            old(self).wf(),
        ensures
            r.wf(),
            r.at == old(self).tree@.attrs.len(),
            r.tree@ == old(self).tree@.prepend_attribute(old(self).at as int, name@, value@),
            final(self).at == old(self).at,
            *final(self).tree == *final(r.tree),
            *final(final(self).tree) == *final(old(self).tree),
    {
        let a = self.tree.prepend_attribute_at(self.at, String::from_str(name), String::from_str(value));
        AttributeMut { tree: &mut *self.tree, at: a }
    }
}

impl Node {
    /// The root, for reading.
    pub fn as_ref(&self) -> (r: NodeRef<'_>)
        requires
            self.wf(),
        ensures
            r.wf(),
            *r.tree == *self,
            r.at == 0,
    {
        NodeRef { tree: self, at: 0 }
    }

    /// The root, for changing the tree.
    pub fn as_mut(&mut self) -> (r: NodeMut<'_>)
        requires
            old(self).wf(),
        ensures
            r.wf(),
            *r.tree == *old(self),
            r.at == 0,
            *final(self) == *final(r.tree),
    {
        NodeMut { tree: self, at: 0 }
    }

    /// The node with the given index, for reading, if the tree has one.
    pub fn node(&self, index: usize) -> (r: Option<NodeRef<'_>>)
        requires
            self.wf(),
        ensures
            NodeRef::is_link(
                r,
                self,
                if index < self@.nodes.len() {
                    Some(index as int)
                } else {
                    None
                },
            ),
    {
        if index < self.len() {
            Some(NodeRef { tree: self, at: index })
        } else {
            None
        }
    }

    /// The node with the given index, for changing the tree, if the tree has
    /// one.
    pub fn node_mut(&mut self, index: usize) -> (r: Option<NodeMut<'_>>)
        requires
            old(self).wf(),
        ensures
            match r {
                Some(h) => {
                    &&& h.wf()
                    &&& *h.tree == *old(self)
                    &&& h.at == index
                    &&& *final(self) == *final(h.tree)
                },
                None => index >= old(self)@.nodes.len() && *final(self) == *old(self),
            },
    {
        if index < self.len() {
            Some(NodeMut { tree: self, at: index })
        } else {
            None
        }
    }

    /// The root's name.
    pub fn name(&self) -> (r: &str)
        requires
            self.wf(),
        ensures
            r@ == self@.nodes[0].name,
    {
        self.name_at(0)
    }

    /// The root's value.
    pub fn value(&self) -> (r: &str)
        requires
            self.wf(),
        ensures
            r@ == self@.nodes[0].value,
    {
        self.value_at(0)
    }

    /// The root's kind.
    pub fn node_type(&self) -> (r: &NodeType)
        requires
            self.wf(),
        ensures
            *r == self@.nodes[0].kind,
    {
        self.node_type_at(0)
    }

    /// The value of the first of the root's attributes that has the given
    /// name.
    pub fn attribute(&self, name: &str) -> (r: Option<&str>)
        requires
            self.wf(),
        ensures
            match self@.find_attribute(0, name@, 0) {
                Some(a) => r matches Some(value) && value@ == self@.attrs[a].value,
                None => r is None,
            },
    {
        match self.find_attribute_at(0, name) {
            Some(a) => Some(self.attribute_value_at(a)),
            None => None,
        }
    }

    /// Gives the root a new name, and hands the tree back for the next change.
    pub fn set_name(&mut self, name: &str) -> (r: &mut Self)
        requires
            old(self).wf(),
        ensures
            r.wf(),
            r@ == old(self)@.with_name(0, name@),
            *final(self) == *final(r),
    {
        self.set_name_at(0, String::from_str(name));
        self
    }

    /// Gives the root a new value, and hands the tree back for the next change.
    pub fn set_value(&mut self, value: &str) -> (r: &mut Self)
        requires
            old(self).wf(),
        ensures
            r.wf(),
            r@ == old(self)@.with_value(0, value@),
            *final(self) == *final(r),
    {
        self.set_value_at(0, String::from_str(value));
        self
    }

    /// Gives the root a new kind, and hands the tree back for the next change.
    pub fn set_node_type(&mut self, node_type: NodeType) -> (r: &mut Self)
        requires
            old(self).wf(),
        ensures
            r.wf(),
            r@ == old(self)@.with_kind(0, node_type),
            *final(self) == *final(r),
    {
        self.set_node_type_at(0, node_type);
        self
    }

    /// The parent of the root: there is none.
    pub fn parent(&self) -> (r: Option<NodeRef<'_>>)
        requires
            self.wf(),
        ensures
            NodeRef::is_link(r, self, self@.parent(0)),
            r is None,
    {
        match self.parent_at(0) {
            Some(j) => Some(NodeRef { tree: self, at: j }),
            None => None,
        }
    }

    /// The parent of the root: there is none. The handle that comes back is for
    /// changing the tree.
    pub fn parent_mut(&mut self) -> (r: Option<NodeMut<'_>>)
        requires
            old(self).wf(),
        ensures
            match r {
                Some(h) => {
                    &&& h.wf()
                    &&& *h.tree == *old(self)
                    &&& old(self)@.parent(0) == Some(h.at as int)
                    &&& *final(self) == *final(h.tree)
                },
                None => old(self)@.parent(0) is None && *final(self) == *old(self),
            },
            r is None,
    {
        match self.parent_at(0) {
            Some(j) => Some(NodeMut { tree: self, at: j }),
            None => None,
        }
    }

    /// The sibling after the root: there is none.
    pub fn next_sibling(&self) -> (r: Option<NodeRef<'_>>)
        requires
            self.wf(),
        ensures
            NodeRef::is_link(r, self, self@.next_sibling(0)),
            r is None,
    {
        match self.next_sibling_at(0) {
            Some(j) => Some(NodeRef { tree: self, at: j }),
            None => None,
        }
    }

    /// The sibling after the root: there is none. The handle that comes back is
    /// for changing the tree.
    pub fn next_sibling_mut(&mut self) -> (r: Option<NodeMut<'_>>)
        requires
            old(self).wf(),
        ensures
            match r {
                Some(h) => {
                    &&& h.wf()
                    &&& *h.tree == *old(self)
                    &&& old(self)@.next_sibling(0) == Some(h.at as int)
                    &&& *final(self) == *final(h.tree)
                },
                None => old(self)@.next_sibling(0) is None && *final(self) == *old(self),
            },
            r is None,
    {
        match self.next_sibling_at(0) {
            Some(j) => Some(NodeMut { tree: self, at: j }),
            None => None,
        }
    }

    /// The sibling before the root: there is none.
    pub fn previous_sibling(&self) -> (r: Option<NodeRef<'_>>)
        requires
            self.wf(),
        ensures
            NodeRef::is_link(r, self, self@.previous_sibling(0)),
            r is None,
    {
        match self.previous_sibling_at(0) {
            Some(j) => Some(NodeRef { tree: self, at: j }),
            None => None,
        }
    }

    /// The sibling before the root: there is none. The handle that comes back
    /// is for changing the tree.
    pub fn previous_sibling_mut(&mut self) -> (r: Option<NodeMut<'_>>)
        requires
            old(self).wf(),
        ensures
            match r {
                Some(h) => {
                    &&& h.wf()
                    &&& *h.tree == *old(self)
                    &&& old(self)@.previous_sibling(0) == Some(h.at as int)
                    &&& *final(self) == *final(h.tree)
                },
                None => old(self)@.previous_sibling(0) is None && *final(self) == *old(self),
            },
            r is None,
    {
        match self.previous_sibling_at(0) {
            Some(j) => Some(NodeMut { tree: self, at: j }),
            None => None,
        }
    }

    /// The first of the root's children.
    pub fn first_child(&self) -> (r: Option<NodeRef<'_>>)
        requires
            self.wf(),
        ensures
            NodeRef::is_link(r, self, self@.first_child(0)),
    {
        match self.first_child_at(0) {
            Some(j) => Some(NodeRef { tree: self, at: j }),
            None => None,
        }
    }

    /// The first of the root's children. The handle that comes back is for
    /// changing the tree.
    pub fn first_child_mut(&mut self) -> (r: Option<NodeMut<'_>>)
        requires
            old(self).wf(),
        ensures
            match r {
                Some(h) => {
                    &&& h.wf()
                    &&& *h.tree == *old(self)
                    &&& old(self)@.first_child(0) == Some(h.at as int)
                    &&& *final(self) == *final(h.tree)
                },
                None => old(self)@.first_child(0) is None && *final(self) == *old(self),
            },
    {
        match self.first_child_at(0) {
            Some(j) => Some(NodeMut { tree: self, at: j }),
            None => None,
        }
    }

    /// The last of the root's children.
    pub fn last_child(&self) -> (r: Option<NodeRef<'_>>)
        requires
            self.wf(),
        ensures
            NodeRef::is_link(r, self, self@.last_child(0)),
    {
        match self.last_child_at(0) {
            Some(j) => Some(NodeRef { tree: self, at: j }),
            None => None,
        }
    }

    /// The last of the root's children. The handle that comes back is for
    /// changing the tree.
    pub fn last_child_mut(&mut self) -> (r: Option<NodeMut<'_>>)
        requires
            old(self).wf(),
        ensures
            match r {
                Some(h) => {
                    &&& h.wf()
                    &&& *h.tree == *old(self)
                    &&& old(self)@.last_child(0) == Some(h.at as int)
                    &&& *final(self) == *final(h.tree)
                },
                None => old(self)@.last_child(0) is None && *final(self) == *old(self),
            },
    {
        match self.last_child_at(0) {
            Some(j) => Some(NodeMut { tree: self, at: j }),
            None => None,
        }
    }

    /// The first of the root's attributes.
    pub fn first_attribute(&self) -> (r: Option<AttributeRef<'_>>)
        requires
            self.wf(),
        ensures
            AttributeRef::is_link(r, self, self@.first_attribute(0)),
    {
        match self.first_attribute_at(0) {
            Some(a) => Some(AttributeRef { tree: self, at: a }),
            None => None,
        }
    }

    /// The first of the root's attributes. The handle that comes back is for
    /// changing the tree.
    pub fn first_attribute_mut(&mut self) -> (r: Option<AttributeMut<'_>>)
        requires
            old(self).wf(),
        ensures
            match r {
                Some(h) => {
                    &&& h.wf()
                    &&& *h.tree == *old(self)
                    &&& old(self)@.first_attribute(0) == Some(h.at as int)
                    &&& *final(self) == *final(h.tree)
                },
                None => old(self)@.first_attribute(0) is None && *final(self) == *old(self),
            },
    {
        match self.first_attribute_at(0) {
            Some(a) => Some(AttributeMut { tree: self, at: a }),
            None => None,
        }
    }

    /// The last of the root's attributes.
    pub fn last_attribute(&self) -> (r: Option<AttributeRef<'_>>)
        requires
            self.wf(),
        ensures
            AttributeRef::is_link(r, self, self@.last_attribute(0)),
    {
        match self.last_attribute_at(0) {
            Some(a) => Some(AttributeRef { tree: self, at: a }),
            None => None,
        }
    }

    /// The last of the root's attributes. The handle that comes back is for
    /// changing the tree.
    pub fn last_attribute_mut(&mut self) -> (r: Option<AttributeMut<'_>>)
        requires
            old(self).wf(),
        ensures
            match r {
                Some(h) => {
                    &&& h.wf()
                    &&& *h.tree == *old(self)
                    &&& old(self)@.last_attribute(0) == Some(h.at as int)
                    &&& *final(self) == *final(h.tree)
                },
                None => old(self)@.last_attribute(0) is None && *final(self) == *old(self),
            },
    {
        match self.last_attribute_at(0) {
            Some(a) => Some(AttributeMut { tree: self, at: a }),
            None => None,
        }
    }

    /// Adds a new element of the given name after the last child of the root,
    /// in constant time, and returns the handle of the new child.
    pub fn append_child(&mut self, name: &str) -> (r: NodeMut<'_>)
        requires
            old(self).wf(),
        ensures
            r.wf(),
            r.at == old(self)@.nodes.len(),
            r.tree@ == old(self)@.append_child(0, name@, NodeType::Element),
            *final(self) == *final(r.tree),
    {
        let c = self.append_child_at(0, String::from_str(name), NodeType::Element);
        NodeMut { tree: self, at: c }
    }

    /// Adds a new element of the given name before the first child of the root,
    /// in constant time, and returns the handle of the new child.
    pub fn prepend_child(&mut self, name: &str) -> (r: NodeMut<'_>)
        requires
            old(self).wf(),
        ensures
            r.wf(),
            r.at == old(self)@.nodes.len(),
            r.tree@ == old(self)@.prepend_child(0, name@, NodeType::Element),
            *final(self) == *final(r.tree),
    {
        let c = self.prepend_child_at(0, String::from_str(name), NodeType::Element);
        NodeMut { tree: self, at: c }
    }

    /// Adds a new node of the given kind, without a name, after the last child
    /// of the root, in constant time, and returns the handle of the new child.
    pub fn append_child_by_type(&mut self, node_type: NodeType) -> (r: NodeMut<'_>)
        requires
            old(self).wf(),
        ensures
            r.wf(),
            r.at == old(self)@.nodes.len(),
            r.tree@ == old(self)@.append_child(0, Seq::<char>::empty(), node_type),
            *final(self) == *final(r.tree),
    {
        let c = self.append_child_at(0, String::new(), node_type);
        NodeMut { tree: self, at: c }
    }

    /// Adds a new node of the given kind, without a name, before the first
    /// child of the root, in constant time, and returns the handle of the new
    /// child.
    pub fn prepend_child_by_type(&mut self, node_type: NodeType) -> (r: NodeMut<'_>)
        requires
            old(self).wf(),
        ensures
            r.wf(),
            r.at == old(self)@.nodes.len(),
            r.tree@ == old(self)@.prepend_child(0, Seq::<char>::empty(), node_type),
            *final(self) == *final(r.tree),
    {
        let c = self.prepend_child_at(0, String::new(), node_type);
        NodeMut { tree: self, at: c }
    }

    /// Adds a new element of the given name right after the child with
    /// index `sibling`, in constant time, and returns the handle of the new
    /// child. The sibling must be a child of the root: where it is not,
    /// nothing is changed and `None` comes back.
    pub fn insert_child_after(&mut self, name: &str, sibling: usize) -> (r: Option<NodeMut<'_>>)
        requires
            old(self).wf(),
        ensures
            match r {
                Some(h) => {
                    &&& old(self)@.is_child_of(sibling as int, 0)
                    &&& h.wf()
                    &&& h.at == old(self)@.nodes.len()
                    &&& h.tree@ == old(self)@.insert_child_after(0, sibling as int, name@)
                    &&& *final(self) == *final(h.tree)
                },
                None => !old(self)@.is_child_of(sibling as int, 0) && *final(self) == *old(self),
            },
    {
        if self.is_child_at(sibling, 0) {
            let c = self.insert_child_after_at(0, sibling, String::from_str(name));
            Some(NodeMut { tree: self, at: c })
        } else {
            None
        }
    }

    /// Adds a new element of the given name right before the child with
    /// index `sibling`, in constant time, and returns the handle of the new
    /// child. The sibling must be a child of the root: where it is not,
    /// nothing is changed and `None` comes back.
    pub fn insert_child_before(&mut self, name: &str, sibling: usize) -> (r: Option<NodeMut<'_>>)
        requires
            old(self).wf(),
        ensures
            match r {
                Some(h) => {
                    &&& old(self)@.is_child_of(sibling as int, 0)
                    &&& h.wf()
                    &&& h.at == old(self)@.nodes.len()
                    &&& h.tree@ == old(self)@.insert_child_before(0, sibling as int, name@)
                    &&& *final(self) == *final(h.tree)
                },
                None => !old(self)@.is_child_of(sibling as int, 0) && *final(self) == *old(self),
            },
    {
        if self.is_child_at(sibling, 0) {
            let c = self.insert_child_before_at(0, sibling, String::from_str(name));
            Some(NodeMut { tree: self, at: c })
        } else {
            None
        }
    }

    /// Adds a new attribute after the last attribute of the root, in constant
    /// time, and
    /// returns its handle.
    pub fn append_attribute(&mut self, name: &str, value: &str) -> (r: AttributeMut<'_>)
        requires
            old(self).wf(),
        ensures
            r.wf(),
            r.at == old(self)@.attrs.len(),
            r.tree@ == old(self)@.append_attribute(0, name@, value@),
            *final(self) == *final(r.tree),
    {
        let a = self.append_attribute_at(0, String::from_str(name), String::from_str(value));
        AttributeMut { tree: self, at: a }
    }

    /// Adds a new attribute before the first attribute of the root, in constant
    /// time, and
    /// returns its handle.
    pub fn prepend_attribute(&mut self, name: &str, value: &str) -> (r: AttributeMut<'_>)
        requires
            old(self).wf(),
        ensures
            r.wf(),
            r.at == old(self)@.attrs.len(),
            r.tree@ == old(self)@.prepend_attribute(0, name@, value@),
            *final(self) == *final(r.tree),
    {
        let a = self.prepend_attribute_at(0, String::from_str(name), String::from_str(value));
        AttributeMut { tree: self, at: a }
    }
}

} // verus!
