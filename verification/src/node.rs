//! The node tree: a table of node and attribute records joined by index
//! links.
//!
//! The links that own in a tree of pointers (next sibling, first child, first
//! attribute) and those that only lead back (parent, previous sibling, last
//! child, last attribute) are all indices here. What a link may hold is said
//! by the tree's invariant, and every operation of this module keeps it.

use vstd::prelude::*;
use vstd::string::*;
use crate::attribute::same_text;
use crate::model::{after, before, head, tail, AttributeModel, NodeModel, TreeModel};

pub use crate::attribute::{Attribute, AttributeMut, AttributeRef};
pub use crate::handle::{NodeMut, NodeRef};

verus! {

/// The kinds of node that a tree can hold. A node's kind decides which of its
/// name and value carries meaning.
#[derive(Debug, Clone, Copy, PartialEq, Eq, Structural)]
pub enum NodeType {
    /// A tag with a name, attributes and children.
    Element,
    /// A run of text between tags.
    PcData,
    /// A character-data section.
    CData,
    /// A comment.
    Comment,
    /// A processing instruction.
    ProcessingInstruction,
    /// The document's declaration.
    Declaration,
    /// A document-type declaration.
    Doctype,
}

/// One node of the table, with its links as indices into the table.
struct NodeRecord {
    name: String,
    value: String,
    kind: NodeType,
    parent: Option<usize>,
    prev: Option<usize>,
    next: Option<usize>,
    first_child: Option<usize>,
    last_child: Option<usize>,
    first_attr: Option<usize>,
    last_attr: Option<usize>,
}

/// One attribute of the table, with its links as indices into the table.
struct AttributeRecord {
    name: String,
    value: String,
    prev: Option<usize>,
    next: Option<usize>,
}

/// The chains that the links of the records spell out: for each node its
/// children and its attributes in order, and for each attribute its owner.
struct Shape {
    children: Seq<Seq<int>>,
    attributes: Seq<Seq<int>>,
    owners: Seq<int>,
}

/// A tree of nodes: the root, with everything below it.
///
/// The tree owns all its nodes and attributes. A node or an attribute is
/// named by its index, which never changes; the root has index `0`.
pub struct Node {
    nodes: Vec<NodeRecord>,
    attrs: Vec<AttributeRecord>,
    shape: Ghost<Shape>,
}

/// An index link as a mathematical integer.
pub open spec fn link(o: Option<usize>) -> Option<int> {
    match o {
        Some(i) => Some(i as int),
        None => None,
    }
}

impl View for Node {
    type V = TreeModel;

    closed spec fn view(&self) -> TreeModel {
        TreeModel {
            nodes: Seq::new(
                self.nodes@.len(),
                |i: int|
                    NodeModel {
                        name: self.nodes@[i].name@,
                        value: self.nodes@[i].value@,
                        kind: self.nodes@[i].kind,
                        parent: link(self.nodes@[i].parent),
                        children: self.shape@.children[i],
                        attributes: self.shape@.attributes[i],
                    },
            ),
            attrs: Seq::new(
                self.attrs@.len(),
                |a: int|
                    AttributeModel {
                        name: self.attrs@[a].name@,
                        value: self.attrs@[a].value@,
                        owner: self.shape@.owners[a],
                    },
            ),
        }
    }
}

impl Node {
    /// The first and last links of node `p` point at the ends of its chains.
    spec fn ends_linked(&self, p: int) -> bool {
        &&& link(self.nodes@[p].first_child) == head(self@.children(p))
        &&& link(self.nodes@[p].last_child) == tail(self@.children(p))
        &&& link(self.nodes@[p].first_attr) == head(self@.attributes(p))
        &&& link(self.nodes@[p].last_attr) == tail(self@.attributes(p))
    }

    /// The sibling links of the `k`-th child of `p` point at its neighbours.
    spec fn child_linked(&self, p: int, k: int) -> bool {
        let c = self@.children(p)[k];
        &&& link(self.nodes@[c].prev) == before(self@.children(p), k)
        &&& link(self.nodes@[c].next) == after(self@.children(p), k)
    }

    /// The links of the `k`-th attribute of `p` point at its neighbours.
    spec fn attribute_linked(&self, p: int, k: int) -> bool {
        let a = self@.attributes(p)[k];
        &&& link(self.attrs@[a].prev) == before(self@.attributes(p), k)
        &&& link(self.attrs@[a].next) == after(self@.attributes(p), k)
    }

    /// Every stored link agrees with the chains of the model.
    pub closed spec fn linked(&self) -> bool {
        &&& self.shape@.children.len() == self.nodes@.len()
        &&& self.shape@.attributes.len() == self.nodes@.len()
        &&& self.shape@.owners.len() == self.attrs@.len()
        &&& self.nodes@.len() > 0
        &&& self.nodes@[0].prev is None
        &&& self.nodes@[0].next is None
        &&& forall|p: int| 0 <= p < self.nodes@.len() ==> #[trigger] self.ends_linked(p)
        &&& forall|p: int, k: int|
            0 <= p < self.nodes@.len() && 0 <= k < self@.children(p).len()
                ==> #[trigger] self.child_linked(p, k)
        &&& forall|p: int, k: int|
            0 <= p < self.nodes@.len() && 0 <= k < self@.attributes(p).len()
                ==> #[trigger] self.attribute_linked(p, k)
    }

    /// The tree's invariant: its model is well-formed and its links spell out
    /// the model's chains. Every constructor establishes it and every
    /// operation keeps it.
    pub open spec fn wf(&self) -> bool {
        self@.wf() && self.linked()
    }

    /// The number of nodes in the tree.
    pub fn len(&self) -> (n: usize)
        requires
            self.wf(),
        ensures
            n == self@.nodes.len(),
            n > 0,
    {
        self.nodes.len()
    }

    /// A tree of one node of the given name and kind.
    fn single(name: String, kind: NodeType) -> (tree: Node)
        ensures
            tree.wf(),
            tree@.nodes.len() == 1,
            tree@.attrs.len() == 0,
            tree@.nodes[0] == (NodeModel {
                name: name@,
                value: Seq::<char>::empty(),
                kind,
                parent: None,
                children: Seq::<int>::empty(),
                attributes: Seq::<int>::empty(),
            }),
    {
        let mut nodes: Vec<NodeRecord> = Vec::new();
        nodes.push(
            NodeRecord {
                name,
                value: String::new(),
                kind,
                parent: None,
                prev: None,
                next: None,
                first_child: None,
                last_child: None,
                first_attr: None,
                last_attr: None,
            },
        );
        let tree = Node {
            nodes,
            attrs: Vec::new(),
            shape: Ghost(
                Shape {
                    children: seq![Seq::<int>::empty()],
                    attributes: seq![Seq::<int>::empty()],
                    owners: Seq::<int>::empty(),
                },
            ),
        };
        proof {
            assert(tree.ends_linked(0));
            assert(tree@.children(0).no_duplicates());
            assert(tree@.attributes(0).no_duplicates());
        }
        tree
    }

    /// The name of node `i`.
    pub fn name_at(&self, i: usize) -> (r: &str)
        requires
            self.wf(),
            i < self@.nodes.len(),
        ensures
            r@ == self@.nodes[i as int].name,
    {
        self.nodes[i].name.as_str()
    }

    /// The value of node `i`.
    pub fn value_at(&self, i: usize) -> (r: &str)
        requires
            self.wf(),
            i < self@.nodes.len(),
        ensures
            r@ == self@.nodes[i as int].value,
    {
        self.nodes[i].value.as_str()
    }

    /// The kind of node `i`.
    pub fn node_type_at(&self, i: usize) -> (r: &NodeType)
        requires
            self.wf(),
            i < self@.nodes.len(),
        ensures
            *r == self@.nodes[i as int].kind,
    {
        &self.nodes[i].kind
    }

    /// The parent of node `i`.
    pub fn parent_at(&self, i: usize) -> (r: Option<usize>)
        requires
            self.wf(),
            i < self@.nodes.len(),
        ensures
            link(r) == self@.parent(i as int),
            r matches Some(p) ==> p < i,
    {
        proof {
            if i > 0 {
                assert(self@.child_linked(i as int));
            }
        }
        self.nodes[i].parent
    }

    /// The sibling after node `i`.
    pub fn next_sibling_at(&self, i: usize) -> (r: Option<usize>)
        requires
            self.wf(),
            i < self@.nodes.len(),
        ensures
            link(r) == self@.next_sibling(i as int),
            r matches Some(j) ==> j < self@.nodes.len(),
    {
        proof {
            self.lemma_sibling_links(i as int);
        }
        self.nodes[i].next
    }

    /// The sibling before node `i`.
    pub fn previous_sibling_at(&self, i: usize) -> (r: Option<usize>)
        requires
            self.wf(),
            i < self@.nodes.len(),
        ensures
            link(r) == self@.previous_sibling(i as int),
            r matches Some(j) ==> j < self@.nodes.len(),
    {
        proof {
            self.lemma_sibling_links(i as int);
        }
        self.nodes[i].prev
    }

    /// The first child of node `i`.
    pub fn first_child_at(&self, i: usize) -> (r: Option<usize>)
        requires
            self.wf(),
            i < self@.nodes.len(),
        ensures
            link(r) == self@.first_child(i as int),
            r matches Some(j) ==> i < j < self@.nodes.len(),
    {
        proof {
            assert(self.ends_linked(i as int));
            if self@.children(i as int).len() > 0 {
                assert(self@.child_slot(i as int, 0));
            }
        }
        self.nodes[i].first_child
    }

    /// The last child of node `i`.
    pub fn last_child_at(&self, i: usize) -> (r: Option<usize>)
        requires
            self.wf(),
            i < self@.nodes.len(),
        ensures
            link(r) == self@.last_child(i as int),
            r matches Some(j) ==> i < j < self@.nodes.len(),
    {
        proof {
            assert(self.ends_linked(i as int));
            if self@.children(i as int).len() > 0 {
                assert(self@.child_slot(i as int, self@.children(i as int).len() - 1));
            }
        }
        self.nodes[i].last_child
    }

    /// The first attribute of node `i`.
    pub fn first_attribute_at(&self, i: usize) -> (r: Option<usize>)
        requires
            self.wf(),
            i < self@.nodes.len(),
        ensures
            link(r) == self@.first_attribute(i as int),
            r matches Some(a) ==> a < self@.attrs.len(),
    {
        proof {
            assert(self.ends_linked(i as int));
            if self@.attributes(i as int).len() > 0 {
                assert(self@.attribute_slot(i as int, 0));
            }
        }
        self.nodes[i].first_attr
    }

    /// The last attribute of node `i`.
    pub fn last_attribute_at(&self, i: usize) -> (r: Option<usize>)
        requires
            self.wf(),
            i < self@.nodes.len(),
        ensures
            link(r) == self@.last_attribute(i as int),
            r matches Some(a) ==> a < self@.attrs.len(),
    {
        proof {
            assert(self.ends_linked(i as int));
            if self@.attributes(i as int).len() > 0 {
                assert(self@.attribute_slot(i as int, self@.attributes(i as int).len() - 1));
            }
        }
        self.nodes[i].last_attr
    }

    /// The name of attribute `a`.
    pub fn attribute_name_at(&self, a: usize) -> (r: &str)
        requires
            self.wf(),
            a < self@.attrs.len(),
        ensures
            r@ == self@.attrs[a as int].name,
    {
        self.attrs[a].name.as_str()
    }

    /// The value of attribute `a`.
    pub fn attribute_value_at(&self, a: usize) -> (r: &str)
        requires
            self.wf(),
            a < self@.attrs.len(),
        ensures
            r@ == self@.attrs[a as int].value,
    {
        self.attrs[a].value.as_str()
    }

    /// The attribute after attribute `a` in the chain of its owner.
    pub fn next_attribute_at(&self, a: usize) -> (r: Option<usize>)
        requires
            self.wf(),
            a < self@.attrs.len(),
        ensures
            link(r) == self@.next_attribute(a as int),
            r matches Some(b) ==> b < self@.attrs.len(),
    {
        proof {
            self.lemma_attribute_links(a as int);
        }
        self.attrs[a].next
    }

    /// The attribute before attribute `a` in the chain of its owner.
    pub fn previous_attribute_at(&self, a: usize) -> (r: Option<usize>)
        requires
            self.wf(),
            a < self@.attrs.len(),
        ensures
            link(r) == self@.previous_attribute(a as int),
            r matches Some(b) ==> b < self@.attrs.len(),
    {
        proof {
            self.lemma_attribute_links(a as int);
        }
        self.attrs[a].prev
    }

    /// The sibling links of node `i` are those that the model gives.
    proof fn lemma_sibling_links(&self, i: int)
        requires
            self.wf(),
            0 <= i < self@.nodes.len(),
        ensures
            link(self.nodes@[i].prev) == self@.previous_sibling(i),
            link(self.nodes@[i].next) == self@.next_sibling(i),
            self.nodes@[i].prev matches Some(j) ==> j < self@.nodes.len(),
            self.nodes@[i].next matches Some(j) ==> j < self@.nodes.len(),
    {
        if i == 0 {
        } else {
            assert(self@.child_linked(i));
            self@.lemma_parent_position(i);
            let p = self@.parent(i).unwrap();
            let k = self@.position(i);
            assert(self.child_linked(p, k));
            if k > 0 {
                assert(self@.child_slot(p, k - 1));
            }
            if k + 1 < self@.children(p).len() {
                assert(self@.child_slot(p, k + 1));
            }
        }
    }

    /// The links of attribute `a` are those that the model gives.
    proof fn lemma_attribute_links(&self, a: int)
        requires
            self.wf(),
            0 <= a < self@.attrs.len(),
        ensures
            link(self.attrs@[a].prev) == self@.previous_attribute(a),
            link(self.attrs@[a].next) == self@.next_attribute(a),
            self.attrs@[a].prev matches Some(b) ==> b < self@.attrs.len(),
            self.attrs@[a].next matches Some(b) ==> b < self@.attrs.len(),
    {
        self@.lemma_owner_position(a);
        let p = self@.owner(a);
        let k = self@.attribute_position(a);
        assert(self.attribute_linked(p, k));
        if k > 0 {
            assert(self@.attribute_slot(p, k - 1));
        }
        if k + 1 < self@.attributes(p).len() {
            assert(self@.attribute_slot(p, k + 1));
        }
    }

    /// Gives node `i` a new name.
    pub fn set_name_at(&mut self, i: usize, name: String)
        requires
            old(self).wf(),
            i < old(self)@.nodes.len(),
        ensures
            final(self).wf(),
            final(self)@ == old(self)@.with_name(i as int, name@),
    {
        self.nodes[i].name = name;
        proof {
            self.lemma_relabelled(*old(self), old(self)@.with_name(i as int, name@));
        }
    }

    /// Gives node `i` a new value.
    pub fn set_value_at(&mut self, i: usize, value: String)
        requires
            old(self).wf(),
            i < old(self)@.nodes.len(),
        ensures
            final(self).wf(),
            final(self)@ == old(self)@.with_value(i as int, value@),
    {
        self.nodes[i].value = value;
        proof {
            self.lemma_relabelled(*old(self), old(self)@.with_value(i as int, value@));
        }
    }

    /// Gives node `i` a new kind.
    pub fn set_node_type_at(&mut self, i: usize, kind: NodeType)
        requires
            old(self).wf(),
            i < old(self)@.nodes.len(),
        ensures
            final(self).wf(),
            final(self)@ == old(self)@.with_kind(i as int, kind),
    {
        self.nodes[i].kind = kind;
        proof {
            self.lemma_relabelled(*old(self), old(self)@.with_kind(i as int, kind));
        }
    }

    /// Gives attribute `a` a new name.
    pub fn set_attribute_name_at(&mut self, a: usize, name: String)
        requires
            old(self).wf(),
            a < old(self)@.attrs.len(),
        ensures
            final(self).wf(),
            final(self)@ == old(self)@.with_attribute_name(a as int, name@),
    {
        self.attrs[a].name = name;
        proof {
            self.lemma_relabelled(*old(self), old(self)@.with_attribute_name(a as int, name@));
        }
    }

    /// Gives attribute `a` a new value.
    pub fn set_attribute_value_at(&mut self, a: usize, value: String)
        requires
            old(self).wf(),
            a < old(self)@.attrs.len(),
        ensures
            final(self).wf(),
            final(self)@ == old(self)@.with_attribute_value(a as int, value@),
    {
        self.attrs[a].value = value;
        proof {
            self.lemma_relabelled(*old(self), old(self)@.with_attribute_value(a as int, value@));
        }
    }

    /// A tree whose links and chains are those of a well-formed tree is
    /// well-formed, whatever its names, values and kinds.
    proof fn lemma_relabelled(&self, before: Node, expected: TreeModel)
        requires
            before.wf(),
            before@.same_shape(expected),
            self.shape@ == before.shape@,
            self.nodes@.len() == before.nodes@.len(),
            self.attrs@.len() == before.attrs@.len(),
            forall|i: int|
                0 <= i < self.nodes@.len() ==> {
                    &&& (#[trigger] self.nodes@[i]).parent == before.nodes@[i].parent
                    &&& self.nodes@[i].prev == before.nodes@[i].prev
                    &&& self.nodes@[i].next == before.nodes@[i].next
                    &&& self.nodes@[i].first_child == before.nodes@[i].first_child
                    &&& self.nodes@[i].last_child == before.nodes@[i].last_child
                    &&& self.nodes@[i].first_attr == before.nodes@[i].first_attr
                    &&& self.nodes@[i].last_attr == before.nodes@[i].last_attr
                    &&& self.nodes@[i].name@ == expected.nodes[i].name
                    &&& self.nodes@[i].value@ == expected.nodes[i].value
                    &&& self.nodes@[i].kind == expected.nodes[i].kind
                },
            forall|a: int|
                0 <= a < self.attrs@.len() ==> {
                    &&& (#[trigger] self.attrs@[a]).prev == before.attrs@[a].prev
                    &&& self.attrs@[a].next == before.attrs@[a].next
                    &&& self.attrs@[a].name@ == expected.attrs[a].name
                    &&& self.attrs@[a].value@ == expected.attrs[a].value
                },
        ensures
            self.wf(),
            self@ == expected,
    {
        assert(self@.nodes =~= expected.nodes);
        assert(self@.attrs =~= expected.attrs);
        before@.lemma_same_shape_wf(expected);
        assert forall|p: int| 0 <= p < self.nodes@.len() implies #[trigger] self.ends_linked(p) by {
            assert(before.ends_linked(p));
        }
        assert forall|p: int, k: int|
            0 <= p < self.nodes@.len() && 0 <= k < self@.children(p).len()
            implies #[trigger] self.child_linked(p, k) by {
            assert(before.child_linked(p, k));
            assert(before@.child_slot(p, k));
        }
        assert forall|p: int, k: int|
            0 <= p < self.nodes@.len() && 0 <= k < self@.attributes(p).len()
            implies #[trigger] self.attribute_linked(p, k) by {
            assert(before.attribute_linked(p, k));
            assert(before@.attribute_slot(p, k));
        }
    }

    /// Makes a fresh node the child of `p` at position `k` of its chain,
    /// between the neighbours `left` and `right`, by setting the links of the
    /// new node, of its neighbours and of `p`.
    fn splice_child(
        &mut self,
        p: usize,
        left: Option<usize>,
        right: Option<usize>,
        name: String,
        kind: NodeType,
        Ghost(k): Ghost<int>,
    ) -> (c: usize)
        requires
            old(self).wf(),
            p < old(self)@.nodes.len(),
            0 <= k <= old(self)@.children(p as int).len(),
            link(left) == before(old(self)@.children(p as int), k),
            link(right) == after(old(self)@.children(p as int), k - 1),
        ensures
            final(self).wf(),
            final(self)@ == old(self)@.insert_child(p as int, k, name@, kind),
            c == old(self)@.nodes.len(),
    {
        let ghost start = *self;
        let ghost chain = self@.children(p as int);
        let c: usize = self.nodes.len();
        proof {
            if k > 0 {
                assert(self@.child_slot(p as int, k - 1));
            }
            if k < chain.len() {
                assert(self@.child_slot(p as int, k));
            }
        }
        self.nodes.push(
            NodeRecord {
                name,
                value: String::new(),
                kind,
                parent: Some(p),
                prev: left,
                next: right,
                first_child: None,
                last_child: None,
                first_attr: None,
                last_attr: None,
            },
        );
        match left {
            Some(l) => {
                self.nodes[l].next = Some(c);
            },
            None => {
                self.nodes[p].first_child = Some(c);
            },
        }
        match right {
            Some(r) => {
                self.nodes[r].prev = Some(c);
            },
            None => {
                self.nodes[p].last_child = Some(c);
            },
        }
        self.shape = Ghost(
            Shape {
                children: start.shape@.children.update(p as int, chain.insert(k, c as int)).push(
                    Seq::empty(),
                ),
                attributes: start.shape@.attributes.push(Seq::empty()),
                owners: start.shape@.owners,
            },
        );
        proof {
            let goal = start@.insert_child(p as int, k, name@, kind);
            start@.lemma_insert_child(p as int, k, name@, kind);
            chain.insert_ensures(k, c as int);
            assert(self@.nodes =~= goal.nodes);
            assert(self@.attrs =~= goal.attrs);
            assert(self@ == goal);
            let grown = chain.insert(k, c as int);
            assert(self@.children(p as int) == grown);
            assert forall|q: int| 0 <= q < self.nodes@.len() implies #[trigger] self.ends_linked(q) by {
                if q < c {
                    assert(start.ends_linked(q));
                }
            }
            assert forall|q: int, j: int|
                0 <= q < self.nodes@.len() && 0 <= j < self@.children(q).len()
                implies #[trigger] self.child_linked(q, j) by {
                if q == p {
                    if j < k {
                        assert(grown[j] == chain[j]);
                        assert(start.child_linked(q, j));
                        assert(start@.child_slot(q, j));
                    } else if j > k {
                        assert(grown[j] == chain[j - 1]);
                        assert(start.child_linked(q, j - 1));
                        assert(start@.child_slot(q, j - 1));
                    }
                } else if q < c {
                    assert(start.child_linked(q, j));
                    assert(start@.child_slot(q, j));
                }
            }
            assert forall|q: int, j: int|
                0 <= q < self.nodes@.len() && 0 <= j < self@.attributes(q).len()
                implies #[trigger] self.attribute_linked(q, j) by {
                if q < c {
                    assert(start.attribute_linked(q, j));
                }
            }
        }
        c
    }

    /// Makes a fresh attribute the attribute of `p` at position `k` of its
    /// chain, between the neighbours `left` and `right`.
    fn splice_attribute(
        &mut self,
        p: usize,
        left: Option<usize>,
        right: Option<usize>,
        name: String,
        value: String,
        Ghost(k): Ghost<int>,
    ) -> (a: usize)
        requires
            old(self).wf(),
            p < old(self)@.nodes.len(),
            0 <= k <= old(self)@.attributes(p as int).len(),
            link(left) == before(old(self)@.attributes(p as int), k),
            link(right) == after(old(self)@.attributes(p as int), k - 1),
        ensures
            final(self).wf(),
            final(self)@ == old(self)@.insert_attribute(p as int, k, name@, value@),
            a == old(self)@.attrs.len(),
    {
        let ghost start = *self;
        let ghost chain = self@.attributes(p as int);
        let a: usize = self.attrs.len();
        proof {
            if k > 0 {
                assert(self@.attribute_slot(p as int, k - 1));
            }
            if k < chain.len() {
                assert(self@.attribute_slot(p as int, k));
            }
        }
        self.attrs.push(AttributeRecord { name, value, prev: left, next: right });
        match left {
            Some(l) => {
                self.attrs[l].next = Some(a);
            },
            None => {
                self.nodes[p].first_attr = Some(a);
            },
        }
        match right {
            Some(r) => {
                self.attrs[r].prev = Some(a);
            },
            None => {
                self.nodes[p].last_attr = Some(a);
            },
        }
        self.shape = Ghost(
            Shape {
                children: start.shape@.children,
                attributes: start.shape@.attributes.update(p as int, chain.insert(k, a as int)),
                owners: start.shape@.owners.push(p as int),
            },
        );
        proof {
            let goal = start@.insert_attribute(p as int, k, name@, value@);
            start@.lemma_insert_attribute(p as int, k, name@, value@);
            chain.insert_ensures(k, a as int);
            assert(self@.nodes =~= goal.nodes);
            assert(self@.attrs =~= goal.attrs);
            assert(self@ == goal);
            let grown = chain.insert(k, a as int);
            assert(self@.attributes(p as int) == grown);
            assert forall|q: int| 0 <= q < self.nodes@.len() implies #[trigger] self.ends_linked(q) by {
                assert(start.ends_linked(q));
            }
            assert forall|q: int, j: int|
                0 <= q < self.nodes@.len() && 0 <= j < self@.children(q).len()
                implies #[trigger] self.child_linked(q, j) by {
                assert(start.child_linked(q, j));
                assert(start@.child_slot(q, j));
            }
            assert forall|q: int, j: int|
                0 <= q < self.nodes@.len() && 0 <= j < self@.attributes(q).len()
                implies #[trigger] self.attribute_linked(q, j) by {
                if q == p {
                    if j < k {
                        assert(grown[j] == chain[j]);
                        assert(start.attribute_linked(q, j));
                        assert(start@.attribute_slot(q, j));
                    } else if j > k {
                        assert(grown[j] == chain[j - 1]);
                        assert(start.attribute_linked(q, j - 1));
                        assert(start@.attribute_slot(q, j - 1));
                    }
                } else {
                    assert(start.attribute_linked(q, j));
                    assert(start@.attribute_slot(q, j));
                }
            }
        }
        a
    }

    /// Adds a fresh node of the given name and kind at the end of the child
    /// chain of `p`, in constant time, and returns its index.
    pub fn append_child_at(&mut self, p: usize, name: String, kind: NodeType) -> (c: usize)
        requires
            old(self).wf(),
            p < old(self)@.nodes.len(),
        ensures
            final(self).wf(),
            final(self)@ == old(self)@.append_child(p as int, name@, kind),
            c == old(self)@.nodes.len(),
    {
        let last = self.last_child_at(p);
        let ghost k = self@.children(p as int).len() as int;
        self.splice_child(p, last, None, name, kind, Ghost(k))
    }

    /// Adds a fresh node of the given name and kind at the start of the child
    /// chain of `p`, in constant time, and returns its index.
    pub fn prepend_child_at(&mut self, p: usize, name: String, kind: NodeType) -> (c: usize)
        requires
            old(self).wf(),
            p < old(self)@.nodes.len(),
        ensures
            final(self).wf(),
            final(self)@ == old(self)@.prepend_child(p as int, name@, kind),
            c == old(self)@.nodes.len(),
    {
        let first = self.first_child_at(p);
        self.splice_child(p, None, first, name, kind, Ghost(0))
    }

    /// Adds a fresh element of the given name to the children of `p`, right
    /// after its child `sibling`, in constant time, and returns its index.
    pub fn insert_child_after_at(&mut self, p: usize, sibling: usize, name: String) -> (c: usize)
        requires
            old(self).wf(),
            old(self)@.is_child_of(sibling as int, p as int),
        ensures
            final(self).wf(),
            final(self)@ == old(self)@.insert_child_after(p as int, sibling as int, name@),
            c == old(self)@.nodes.len(),
    {
        proof {
            self@.lemma_parent_position(sibling as int);
        }
        let next = self.next_sibling_at(sibling);
        let ghost k = self@.position(sibling as int) + 1;
        self.splice_child(p, Some(sibling), next, name, NodeType::Element, Ghost(k))
    }

    /// Adds a fresh element of the given name to the children of `p`, right
    /// before its child `sibling`, in constant time, and returns its index.
    pub fn insert_child_before_at(&mut self, p: usize, sibling: usize, name: String) -> (c: usize)
        requires
            old(self).wf(),
            old(self)@.is_child_of(sibling as int, p as int),
        ensures
            final(self).wf(),
            final(self)@ == old(self)@.insert_child_before(p as int, sibling as int, name@),
            c == old(self)@.nodes.len(),
    {
        proof {
            self@.lemma_parent_position(sibling as int);
        }
        let prev = self.previous_sibling_at(sibling);
        let ghost k = self@.position(sibling as int);
        self.splice_child(p, prev, Some(sibling), name, NodeType::Element, Ghost(k))
    }

    /// Adds a fresh attribute at the end of the attribute chain of `p`, in
    /// constant time, and returns its index.
    pub fn append_attribute_at(&mut self, p: usize, name: String, value: String) -> (a: usize)
        requires
            old(self).wf(),
            p < old(self)@.nodes.len(),
        ensures
            final(self).wf(),
            final(self)@ == old(self)@.append_attribute(p as int, name@, value@),
            a == old(self)@.attrs.len(),
    {
        let last = self.last_attribute_at(p);
        let ghost k = self@.attributes(p as int).len() as int;
        self.splice_attribute(p, last, None, name, value, Ghost(k))
    }

    /// Adds a fresh attribute at the start of the attribute chain of `p`, in
    /// constant time, and returns its index.
    pub fn prepend_attribute_at(&mut self, p: usize, name: String, value: String) -> (a: usize)
        requires
            old(self).wf(),
            p < old(self)@.nodes.len(),
        ensures
            final(self).wf(),
            final(self)@ == old(self)@.prepend_attribute(p as int, name@, value@),
            a == old(self)@.attrs.len(),
    {
        let first = self.first_attribute_at(p);
        self.splice_attribute(p, None, first, name, value, Ghost(0))
    }

    /// A tree of one detached element of the given name, with an empty value
    /// and no links.
    pub fn new(name: &str) -> (tree: Node)
        ensures
            tree.wf(),
            tree@ == TreeModel::single(name@, NodeType::Element),
    {
        let tree = Node::single(String::from_str(name), NodeType::Element);
        proof {
            assert(tree@.nodes =~= TreeModel::single(name@, NodeType::Element).nodes);
            assert(tree@.attrs =~= TreeModel::single(name@, NodeType::Element).attrs);
        }
        tree
    }

    /// A tree of one detached node of the given kind, with an empty name, an
    /// empty value and no links.
    pub fn new_by_type(node_type: NodeType) -> (tree: Node)
        ensures
            tree.wf(),
            tree@ == TreeModel::single(Seq::<char>::empty(), node_type),
    {
        let tree = Node::single(String::new(), node_type);
        proof {
            assert(tree@.nodes =~= TreeModel::single(Seq::<char>::empty(), node_type).nodes);
            assert(tree@.attrs =~= TreeModel::single(Seq::<char>::empty(), node_type).attrs);
        }
        tree
    }

    /// Whether the tree has a node `c` and `p` is its parent.
    pub fn is_child_at(&self, c: usize, p: usize) -> (r: bool)
        requires
            self.wf(),
        ensures
            r == self@.is_child_of(c as int, p as int),
    {
        if c < self.nodes.len() {
            match self.nodes[c].parent {
                Some(q) => q == p,
                None => false,
            }
        } else {
            false
        }
    }

    /// The first attribute of node `i` that has the given name.
    pub fn find_attribute_at(&self, i: usize, name: &str) -> (r: Option<usize>)
        requires
            self.wf(),
            i < self@.nodes.len(),
        ensures
            link(r) == self@.find_attribute(i as int, name@, 0),
            r matches Some(a) ==> a < self@.attrs.len(),
    {
        let ghost chain = self@.attributes(i as int);
        let mut next = self.first_attribute_at(i);
        let ghost mut k: int = 0;
        while next.is_some()
            invariant
                self.wf(),
                i < self@.nodes.len(),
                chain == self@.attributes(i as int),
                0 <= k <= chain.len(),
                link(next) == (if k < chain.len() {
                    Some(chain[k])
                } else {
                    None
                }),
                self@.find_attribute(i as int, name@, 0) == self@.find_attribute(
                    i as int,
                    name@,
                    k,
                ),
            decreases chain.len() - k,
        {
            let a = next.unwrap();
            proof {
                self@.lemma_attribute_position(i as int, k);
            }
            if same_text(self.attribute_name_at(a), name) {
                return Some(a);
            }
            next = self.next_attribute_at(a);
            proof {
                k = k + 1;
            }
        }
        None
    }
}

} // verus!
