//! The mathematical model of a node tree.
//!
//! A tree is a table of nodes and a table of attributes. A node knows its
//! parent and the ordered chains of its children and attributes; everything
//! else about the tree's shape (siblings, first and last child) is read off
//! those chains.

use vstd::prelude::*;
use crate::node::NodeType;

verus! {

/// What one node holds.
pub struct NodeModel {
    /// The name: that of an element, a processing instruction or a document
    /// type; empty otherwise.
    pub name: Seq<char>,
    /// The value: that of a text, a character-data section or a comment;
    /// empty otherwise.
    pub value: Seq<char>,
    pub kind: NodeType,
    /// The node that holds this one in its child chain; `None` for the root.
    pub parent: Option<int>,
    /// The children, first to last.
    pub children: Seq<int>,
    /// The attributes, first to last.
    pub attributes: Seq<int>,
}

/// What one attribute holds.
pub struct AttributeModel {
    pub name: Seq<char>,
    pub value: Seq<char>,
    /// The node whose attribute chain holds this attribute.
    pub owner: int,
}

/// A node seen with everything below it and without its place in a table:
/// what two trees have in common when they have the same names, values,
/// kinds, attributes and children in the same order.
pub struct Element {
    pub name: Seq<char>,
    pub value: Seq<char>,
    pub kind: NodeType,
    /// The attributes as pairs of name and value, first to last.
    pub attributes: Seq<(Seq<char>, Seq<char>)>,
    /// The children, first to last.
    pub children: Seq<Element>,
}

/// A whole tree: node `0` is the root.
pub struct TreeModel {
    pub nodes: Seq<NodeModel>,
    pub attrs: Seq<AttributeModel>,
}

/// The element before position `k` of a chain, if there is one.
pub open spec fn before(chain: Seq<int>, k: int) -> Option<int> {
    if 0 < k <= chain.len() {
        Some(chain[k - 1])
    } else {
        None
    }
}

/// The element after position `k` of a chain, if there is one.
pub open spec fn after(chain: Seq<int>, k: int) -> Option<int> {
    if 0 <= k + 1 < chain.len() {
        Some(chain[k + 1])
    } else {
        None
    }
}

/// The first element of a chain, if it has one.
pub open spec fn head(chain: Seq<int>) -> Option<int> {
    if chain.len() > 0 {
        Some(chain[0])
    } else {
        None
    }
}

/// The last element of a chain, if it has one.
pub open spec fn tail(chain: Seq<int>) -> Option<int> {
    if chain.len() > 0 {
        Some(chain[chain.len() - 1])
    } else {
        None
    }
}

impl TreeModel {
    /// The tree of one node of the given name and kind, with an empty value.
    pub open spec fn single(name: Seq<char>, kind: NodeType) -> TreeModel {
        TreeModel {
            nodes: seq![
                NodeModel {
                    name,
                    value: Seq::<char>::empty(),
                    kind,
                    parent: None,
                    children: Seq::<int>::empty(),
                    attributes: Seq::<int>::empty(),
                },
            ],
            attrs: Seq::empty(),
        }
    }

    /// Whether `i` is the index of a node of the tree.
    pub open spec fn has_node(self, i: int) -> bool {
        0 <= i < self.nodes.len()
    }

    /// Whether `a` is the index of an attribute of the tree.
    pub open spec fn has_attribute(self, a: int) -> bool {
        0 <= a < self.attrs.len()
    }

    /// The children of node `i`, first to last.
    pub open spec fn children(self, i: int) -> Seq<int> {
        self.nodes[i].children
    }

    /// The attributes of node `i`, first to last.
    pub open spec fn attributes(self, i: int) -> Seq<int> {
        self.nodes[i].attributes
    }

    /// The parent of node `i`; `None` for the root.
    pub open spec fn parent(self, i: int) -> Option<int> {
        self.nodes[i].parent
    }

    /// The node that owns attribute `a`.
    pub open spec fn owner(self, a: int) -> int {
        self.attrs[a].owner
    }

    /// Node `i` names a parent that was made before it and that lists it.
    pub open spec fn child_linked(self, i: int) -> bool {
        match self.nodes[i].parent {
            Some(p) => 0 <= p < i && self.children(p).contains(i),
            None => false,
        }
    }

    /// The `k`-th child of `p` was made after `p` and names `p` as its parent.
    pub open spec fn child_slot(self, p: int, k: int) -> bool {
        let c = self.children(p)[k];
        p < c < self.nodes.len() && self.nodes[c].parent == Some(p)
    }

    /// Attribute `a` names an owner that lists it.
    pub open spec fn attribute_linked(self, a: int) -> bool {
        self.has_node(self.owner(a)) && self.attributes(self.owner(a)).contains(a)
    }

    /// The `k`-th attribute of `p` exists and names `p` as its owner.
    pub open spec fn attribute_slot(self, p: int, k: int) -> bool {
        let a = self.attributes(p)[k];
        self.has_attribute(a) && self.owner(a) == p
    }

    /// The tree's structural invariant: the root has no parent, every other
    /// node sits exactly once in the child chain of its parent, every
    /// attribute sits exactly once in the chain of its owner, and a child is
    /// always younger than its parent, so no node is its own ancestor.
    pub open spec fn wf(self) -> bool {
        &&& self.nodes.len() > 0
        &&& self.nodes[0].parent is None
        &&& forall|i: int| 0 < i < self.nodes.len() ==> #[trigger] self.child_linked(i)
        &&& forall|p: int, k: int|
            self.has_node(p) && 0 <= k < self.children(p).len() ==> #[trigger] self.child_slot(p, k)
        &&& forall|p: int| self.has_node(p) ==> (#[trigger] self.children(p)).no_duplicates()
        &&& forall|a: int| self.has_attribute(a) ==> #[trigger] self.attribute_linked(a)
        &&& forall|p: int, k: int|
            self.has_node(p) && 0 <= k < self.attributes(p).len() ==> #[trigger] self.attribute_slot(
                p,
                k,
            )
        &&& forall|p: int| self.has_node(p) ==> (#[trigger] self.attributes(p)).no_duplicates()
    }

    /// Where node `i` stands in the child chain of its parent.
    pub open spec fn position(self, i: int) -> int {
        self.children(self.nodes[i].parent.unwrap()).index_of(i)
    }

    /// Where attribute `a` stands in the chain of its owner.
    pub open spec fn attribute_position(self, a: int) -> int {
        self.attributes(self.owner(a)).index_of(a)
    }

    /// The first child of node `i`.
    pub open spec fn first_child(self, i: int) -> Option<int> {
        head(self.children(i))
    }

    /// The last child of node `i`.
    pub open spec fn last_child(self, i: int) -> Option<int> {
        tail(self.children(i))
    }

    /// The node after `i` in the child chain of its parent.
    pub open spec fn next_sibling(self, i: int) -> Option<int> {
        match self.nodes[i].parent {
            Some(p) => after(self.children(p), self.position(i)),
            None => None,
        }
    }

    /// The node before `i` in the child chain of its parent.
    pub open spec fn previous_sibling(self, i: int) -> Option<int> {
        match self.nodes[i].parent {
            Some(p) => before(self.children(p), self.position(i)),
            None => None,
        }
    }

    /// The first attribute of node `i`.
    pub open spec fn first_attribute(self, i: int) -> Option<int> {
        head(self.attributes(i))
    }

    /// The last attribute of node `i`.
    pub open spec fn last_attribute(self, i: int) -> Option<int> {
        tail(self.attributes(i))
    }

    /// The attribute after `a` in the chain of its owner.
    pub open spec fn next_attribute(self, a: int) -> Option<int> {
        after(self.attributes(self.owner(a)), self.attribute_position(a))
    }

    /// The attribute before `a` in the chain of its owner.
    pub open spec fn previous_attribute(self, a: int) -> Option<int> {
        before(self.attributes(self.owner(a)), self.attribute_position(a))
    }

    /// The first attribute of node `i`, from position `k` of its chain on,
    /// that has the given name.
    pub open spec fn find_attribute(self, i: int, name: Seq<char>, k: int) -> Option<int>
        decreases self.attributes(i).len() - k,
    {
        if 0 <= k < self.attributes(i).len() {
            if self.attrs[self.attributes(i)[k]].name == name {
                Some(self.attributes(i)[k])
            } else {
                self.find_attribute(i, name, k + 1)
            }
        } else {
            None
        }
    }

    /// Whether `c` is one of the children of `p`.
    pub open spec fn is_child_of(self, c: int, p: int) -> bool {
        self.has_node(c) && self.nodes[c].parent == Some(p)
    }

    /// The tree with a new name for node `i`.
    pub open spec fn with_name(self, i: int, name: Seq<char>) -> TreeModel {
        TreeModel { nodes: self.nodes.update(i, NodeModel { name, ..self.nodes[i] }), ..self }
    }

    /// The tree with a new value for node `i`.
    pub open spec fn with_value(self, i: int, value: Seq<char>) -> TreeModel {
        TreeModel { nodes: self.nodes.update(i, NodeModel { value, ..self.nodes[i] }), ..self }
    }

    /// The tree with a new kind for node `i`.
    pub open spec fn with_kind(self, i: int, kind: NodeType) -> TreeModel {
        TreeModel { nodes: self.nodes.update(i, NodeModel { kind, ..self.nodes[i] }), ..self }
    }

    /// The tree with a new name for attribute `a`.
    pub open spec fn with_attribute_name(self, a: int, name: Seq<char>) -> TreeModel {
        TreeModel { attrs: self.attrs.update(a, AttributeModel { name, ..self.attrs[a] }), ..self }
    }

    /// The tree with a new value for attribute `a`.
    pub open spec fn with_attribute_value(self, a: int, value: Seq<char>) -> TreeModel {
        TreeModel {
            attrs: self.attrs.update(a, AttributeModel { value, ..self.attrs[a] }),
            ..self
        }
    }

    /// A fresh childless node of the given name and kind becomes the child of
    /// `p` at position `k`; it takes the next free index.
    pub open spec fn insert_child(self, p: int, k: int, name: Seq<char>, kind: NodeType) -> TreeModel {
        let c = self.nodes.len() as int;
        let fresh = NodeModel {
            name,
            value: Seq::empty(),
            kind,
            parent: Some(p),
            children: Seq::empty(),
            attributes: Seq::empty(),
        };
        let grown = NodeModel { children: self.children(p).insert(k, c), ..self.nodes[p] };
        TreeModel { nodes: self.nodes.update(p, grown).push(fresh), ..self }
    }

    /// The tree with a fresh node as the last child of `p`.
    pub open spec fn append_child(self, p: int, name: Seq<char>, kind: NodeType) -> TreeModel {
        self.insert_child(p, self.children(p).len() as int, name, kind)
    }

    /// The tree with a fresh node as the first child of `p`.
    pub open spec fn prepend_child(self, p: int, name: Seq<char>, kind: NodeType) -> TreeModel {
        self.insert_child(p, 0, name, kind)
    }

    /// The tree with a fresh element right after the child `sibling` of `p`.
    pub open spec fn insert_child_after(self, p: int, sibling: int, name: Seq<char>) -> TreeModel {
        self.insert_child(p, self.position(sibling) + 1, name, NodeType::Element)
    }

    /// The tree with a fresh element right before the child `sibling` of `p`.
    pub open spec fn insert_child_before(self, p: int, sibling: int, name: Seq<char>) -> TreeModel {
        self.insert_child(p, self.position(sibling), name, NodeType::Element)
    }

    /// A fresh attribute becomes the attribute of `p` at position `k`; it takes
    /// the next free index.
    pub open spec fn insert_attribute(
        self,
        p: int,
        k: int,
        name: Seq<char>,
        value: Seq<char>,
    ) -> TreeModel {
        let a = self.attrs.len() as int;
        let grown = NodeModel { attributes: self.attributes(p).insert(k, a), ..self.nodes[p] };
        TreeModel {
            nodes: self.nodes.update(p, grown),
            attrs: self.attrs.push(AttributeModel { name, value, owner: p }),
        }
    }

    /// The tree with a fresh attribute as the last attribute of `p`.
    pub open spec fn append_attribute(self, p: int, name: Seq<char>, value: Seq<char>) -> TreeModel {
        self.insert_attribute(p, self.attributes(p).len() as int, name, value)
    }

    /// The tree with a fresh attribute as the first attribute of `p`.
    pub open spec fn prepend_attribute(self, p: int, name: Seq<char>, value: Seq<char>) -> TreeModel {
        self.insert_attribute(p, 0, name, value)
    }

    /// In a well-formed tree the `k`-th child of `p` stands at position `k`
    /// and nowhere else.
    pub proof fn lemma_child_position(self, p: int, k: int)
        requires
            self.wf(),
            self.has_node(p),
            0 <= k < self.children(p).len(),
        ensures
            self.has_node(self.children(p)[k]),
            self.parent(self.children(p)[k]) == Some(p),
            self.position(self.children(p)[k]) == k,
    {
        assert(self.child_slot(p, k));
        let c = self.children(p)[k];
        let j = self.children(p).index_of(c);
        assert(self.children(p).no_duplicates());
        assert(0 <= j < self.children(p).len() && self.children(p)[j] == c);
    }

    /// In a well-formed tree a node other than the root stands in the child
    /// chain of its parent.
    pub proof fn lemma_parent_position(self, i: int)
        requires
            self.wf(),
            self.has_node(i),
            self.parent(i) is Some,
        ensures
            self.has_node(self.parent(i).unwrap()),
            self.parent(i).unwrap() < i,
            0 <= self.position(i) < self.children(self.parent(i).unwrap()).len(),
            self.children(self.parent(i).unwrap())[self.position(i)] == i,
    {
        assert(i != 0);
        assert(self.child_linked(i));
    }

    /// In a well-formed tree the `k`-th attribute of `p` stands at position
    /// `k` and nowhere else.
    pub proof fn lemma_attribute_position(self, p: int, k: int)
        requires
            self.wf(),
            self.has_node(p),
            0 <= k < self.attributes(p).len(),
        ensures
            self.has_attribute(self.attributes(p)[k]),
            self.owner(self.attributes(p)[k]) == p,
            self.attribute_position(self.attributes(p)[k]) == k,
    {
        assert(self.attribute_slot(p, k));
        let a = self.attributes(p)[k];
        let j = self.attributes(p).index_of(a);
        assert(self.attributes(p).no_duplicates());
        assert(0 <= j < self.attributes(p).len() && self.attributes(p)[j] == a);
    }

    /// In a well-formed tree an attribute stands in the chain of its owner.
    pub proof fn lemma_owner_position(self, a: int)
        requires
            self.wf(),
            self.has_attribute(a),
        ensures
            self.has_node(self.owner(a)),
            0 <= self.attribute_position(a) < self.attributes(self.owner(a)).len(),
            self.attributes(self.owner(a))[self.attribute_position(a)] == a,
    {
        assert(self.attribute_linked(a));
    }

    /// Renaming, revaluing or retyping a node leaves the tree's shape alone.
    pub proof fn lemma_with_fields_wf(self, i: int, name: Seq<char>, value: Seq<char>, kind: NodeType)
        requires
            self.wf(),
            self.has_node(i),
        ensures
            self.with_name(i, name).wf(),
            self.with_value(i, value).wf(),
            self.with_kind(i, kind).wf(),
    {
        self.lemma_same_shape_wf(self.with_name(i, name));
        self.lemma_same_shape_wf(self.with_value(i, value));
        self.lemma_same_shape_wf(self.with_kind(i, kind));
    }

    /// Whether two trees have the same links between the same nodes and
    /// attributes.
    pub open spec fn same_shape(self, other: TreeModel) -> bool {
        &&& self.nodes.len() == other.nodes.len()
        &&& self.attrs.len() == other.attrs.len()
        &&& forall|i: int|
            0 <= i < self.nodes.len() ==> {
                &&& (#[trigger] other.nodes[i]).parent == self.nodes[i].parent
                &&& other.nodes[i].children == self.nodes[i].children
                &&& other.nodes[i].attributes == self.nodes[i].attributes
            }
        &&& forall|a: int|
            0 <= a < self.attrs.len() ==> (#[trigger] other.attrs[a]).owner == self.attrs[a].owner
    }

    /// Well-formedness speaks of the shape only.
    pub proof fn lemma_same_shape_wf(self, other: TreeModel)
        requires
            self.wf(),
            self.same_shape(other),
        ensures
            other.wf(),
    {
        assert forall|i: int| 0 < i < other.nodes.len() implies #[trigger] other.child_linked(i) by {
            assert(self.child_linked(i));
            let q = self.nodes[i].parent.unwrap();
            assert(other.nodes[q].children == self.nodes[q].children);
        }
        assert forall|q: int, j: int|
            other.has_node(q) && 0 <= j < other.children(q).len() implies #[trigger] other.child_slot(
            q,
            j,
        ) by {
            assert(other.nodes[q].children == self.nodes[q].children);
            assert(self.child_slot(q, j));
            assert(other.nodes[self.children(q)[j]].parent == self.nodes[self.children(q)[j]].parent);
        }
        assert forall|q: int| other.has_node(q) implies (#[trigger] other.children(q)).no_duplicates() by {
            assert(other.nodes[q].children == self.nodes[q].children);
            assert(self.children(q).no_duplicates());
        }
        assert forall|a: int| other.has_attribute(a) implies #[trigger] other.attribute_linked(a) by {
            assert(self.attribute_linked(a));
            assert(other.attrs[a].owner == self.attrs[a].owner);
            assert(other.nodes[self.owner(a)].attributes == self.nodes[self.owner(a)].attributes);
        }
        assert forall|q: int, j: int|
            other.has_node(q) && 0 <= j < other.attributes(q).len() implies #[trigger] other.attribute_slot(
            q,
            j,
        ) by {
            assert(other.nodes[q].attributes == self.nodes[q].attributes);
            assert(self.attribute_slot(q, j));
            assert(other.attrs[self.attributes(q)[j]].owner == self.attrs[self.attributes(q)[j]].owner);
        }
        assert forall|q: int| other.has_node(q) implies (#[trigger] other.attributes(q)).no_duplicates() by {
            assert(other.nodes[q].attributes == self.nodes[q].attributes);
            assert(self.attributes(q).no_duplicates());
        }
        assert(other.nodes[0].parent == self.nodes[0].parent);
    }

    /// Putting a fresh child into a chain keeps the tree well-formed, and
    /// changes nothing but that chain.
    pub proof fn lemma_insert_child(self, p: int, k: int, name: Seq<char>, kind: NodeType)
        requires
            self.wf(),
            self.has_node(p),
            0 <= k <= self.children(p).len(),
        ensures
            self.insert_child(p, k, name, kind).wf(),
            self.insert_child(p, k, name, kind).nodes.len() == self.nodes.len() + 1,
            self.insert_child(p, k, name, kind).attrs == self.attrs,
            self.insert_child(p, k, name, kind).children(p) == self.children(p).insert(
                k,
                self.nodes.len() as int,
            ),
            self.insert_child(p, k, name, kind).children(p)[k] == self.nodes.len(),
            self.insert_child(p, k, name, kind).position(self.nodes.len() as int) == k,
            forall|q: int|
                self.has_node(q) && q != p ==> #[trigger] self.insert_child(p, k, name, kind).nodes[q]
                    == self.nodes[q],
    {
        let r = self.insert_child(p, k, name, kind);
        let c = self.nodes.len() as int;
        let old_chain = self.children(p);
        let new_chain = old_chain.insert(k, c);
        old_chain.insert_ensures(k, c);
        assert(r.children(p) == new_chain);
        assert forall|j: int| 0 <= j < old_chain.len() implies old_chain[j] < c by {
            assert(self.child_slot(p, j));
        }
        assert(old_chain.no_duplicates());
        assert(new_chain.no_duplicates()) by {
            assert forall|x: int, y: int|
                0 <= x < new_chain.len() && 0 <= y < new_chain.len() && x != y implies new_chain[x]
                != new_chain[y] by {
                let ox = if x < k { x } else { x - 1 };
                let oy = if y < k { y } else { y - 1 };
                if x != k && y != k {
                    assert(new_chain[x] == old_chain[ox]);
                    assert(new_chain[y] == old_chain[oy]);
                } else if x == k {
                    assert(new_chain[y] == old_chain[oy]);
                } else {
                    assert(new_chain[x] == old_chain[ox]);
                }
            }
        }
        assert forall|i: int| 0 < i < r.nodes.len() implies #[trigger] r.child_linked(i) by {
            if i == c {
                assert(new_chain[k] == c);
            } else {
                assert(self.child_linked(i));
                let q = self.nodes[i].parent.unwrap();
                if q == p {
                    let j = old_chain.index_of(i);
                    if j < k {
                        assert(new_chain[j] == i);
                    } else {
                        assert(new_chain[j + 1] == i);
                    }
                } else {
                    assert(r.nodes[q] == self.nodes[q]);
                }
            }
        }
        assert forall|q: int, j: int|
            r.has_node(q) && 0 <= j < r.children(q).len() implies #[trigger] r.child_slot(q, j) by {
            if q == p {
                if j < k {
                    assert(new_chain[j] == old_chain[j]);
                    assert(self.child_slot(p, j));
                } else if j > k {
                    assert(new_chain[j] == old_chain[j - 1]);
                    assert(self.child_slot(p, j - 1));
                }
            } else if q != c {
                assert(self.child_slot(q, j));
            }
        }
        assert forall|q: int| r.has_node(q) implies (#[trigger] r.children(q)).no_duplicates() by {
            if q != p && q != c {
                assert(self.children(q).no_duplicates());
            }
        }
        assert forall|a: int| r.has_attribute(a) implies #[trigger] r.attribute_linked(a) by {
            assert(self.attribute_linked(a));
        }
        assert forall|q: int, j: int|
            r.has_node(q) && 0 <= j < r.attributes(q).len() implies #[trigger] r.attribute_slot(q, j) by {
            if q != c {
                assert(self.attribute_slot(q, j));
            }
        }
        assert forall|q: int| r.has_node(q) implies (#[trigger] r.attributes(q)).no_duplicates() by {
            if q != c {
                assert(self.attributes(q).no_duplicates());
            }
        }
        assert(r.wf());
        r.lemma_child_position(p, k);
    }

    /// Putting a fresh attribute into a chain keeps the tree well-formed, and
    /// changes nothing but that chain.
    pub proof fn lemma_insert_attribute(self, p: int, k: int, name: Seq<char>, value: Seq<char>)
        requires
            self.wf(),
            self.has_node(p),
            0 <= k <= self.attributes(p).len(),
        ensures
            self.insert_attribute(p, k, name, value).wf(),
            self.insert_attribute(p, k, name, value).nodes.len() == self.nodes.len(),
            self.insert_attribute(p, k, name, value).attrs.len() == self.attrs.len() + 1,
            self.insert_attribute(p, k, name, value).attributes(p) == self.attributes(p).insert(
                k,
                self.attrs.len() as int,
            ),
            self.insert_attribute(p, k, name, value).attributes(p)[k] == self.attrs.len(),
            self.insert_attribute(p, k, name, value).attribute_position(self.attrs.len() as int) == k,
            forall|q: int|
                self.has_node(q) && q != p ==> #[trigger] self.insert_attribute(p, k, name, value).nodes[q]
                    == self.nodes[q],
            forall|a: int|
                self.has_attribute(a) ==> #[trigger] self.insert_attribute(p, k, name, value).attrs[a]
                    == self.attrs[a],
    {
        let r = self.insert_attribute(p, k, name, value);
        let c = self.attrs.len() as int;
        let old_chain = self.attributes(p);
        let new_chain = old_chain.insert(k, c);
        old_chain.insert_ensures(k, c);
        assert(r.attributes(p) == new_chain);
        assert forall|j: int| 0 <= j < old_chain.len() implies old_chain[j] < c by {
            assert(self.attribute_slot(p, j));
        }
        assert(old_chain.no_duplicates());
        assert(new_chain.no_duplicates()) by {
            assert forall|x: int, y: int|
                0 <= x < new_chain.len() && 0 <= y < new_chain.len() && x != y implies new_chain[x]
                != new_chain[y] by {
                let ox = if x < k { x } else { x - 1 };
                let oy = if y < k { y } else { y - 1 };
                if x != k && y != k {
                    assert(new_chain[x] == old_chain[ox]);
                    assert(new_chain[y] == old_chain[oy]);
                } else if x == k {
                    assert(new_chain[y] == old_chain[oy]);
                } else {
                    assert(new_chain[x] == old_chain[ox]);
                }
            }
        }
        assert forall|i: int| 0 < i < r.nodes.len() implies #[trigger] r.child_linked(i) by {
            assert(self.child_linked(i));
        }
        assert forall|q: int, j: int|
            r.has_node(q) && 0 <= j < r.children(q).len() implies #[trigger] r.child_slot(q, j) by {
            assert(self.child_slot(q, j));
        }
        assert forall|q: int| r.has_node(q) implies (#[trigger] r.children(q)).no_duplicates() by {
            assert(self.children(q).no_duplicates());
        }
        assert forall|a: int| r.has_attribute(a) implies #[trigger] r.attribute_linked(a) by {
            if a == c {
                assert(new_chain[k] == c);
            } else {
                assert(self.attribute_linked(a));
                let q = self.owner(a);
                if q == p {
                    let j = old_chain.index_of(a);
                    if j < k {
                        assert(new_chain[j] == a);
                    } else {
                        assert(new_chain[j + 1] == a);
                    }
                }
            }
        }
        assert forall|q: int, j: int|
            r.has_node(q) && 0 <= j < r.attributes(q).len() implies #[trigger] r.attribute_slot(q, j) by {
            if q == p {
                if j < k {
                    assert(new_chain[j] == old_chain[j]);
                    assert(self.attribute_slot(p, j));
                } else if j > k {
                    assert(new_chain[j] == old_chain[j - 1]);
                    assert(self.attribute_slot(p, j - 1));
                }
            } else {
                assert(self.attribute_slot(q, j));
            }
        }
        assert forall|q: int| r.has_node(q) implies (#[trigger] r.attributes(q)).no_duplicates() by {
            if q != p {
                assert(self.attributes(q).no_duplicates());
            }
        }
        assert(r.wf());
        r.lemma_attribute_position(p, k);
    }

    /// The attributes of node `i` as pairs of name and value, first to last.
    pub open spec fn attribute_pairs(self, i: int) -> Seq<(Seq<char>, Seq<char>)> {
        Seq::new(
            self.attributes(i).len(),
            |k: int| (self.attrs[self.attributes(i)[k]].name, self.attrs[self.attributes(i)[k]].value),
        )
    }

    /// Node `i` with everything below it.
    pub open spec fn subtree(self, i: int) -> Element
        decreases self.nodes.len() - i, self.children(i).len() + 1,
    {
        Element {
            name: self.nodes[i].name,
            value: self.nodes[i].value,
            kind: self.nodes[i].kind,
            attributes: self.attribute_pairs(i),
            children: self.subtrees(i, 0),
        }
    }

    /// The children of node `i` from position `k` on, each with everything
    /// below it.
    pub open spec fn subtrees(self, i: int, k: int) -> Seq<Element>
        decreases self.nodes.len() - i, self.children(i).len() - k,
    {
        if 0 <= k < self.children(i).len() && i < self.children(i)[k] < self.nodes.len() {
            seq![self.subtree(self.children(i)[k])] + self.subtrees(i, k + 1)
        } else {
            Seq::empty()
        }
    }

    /// In a well-formed tree `subtrees` holds one entry for each child from
    /// position `k` on: the subtree of that child.
    pub proof fn lemma_subtrees(self, i: int, k: int)
        requires
            self.wf(),
            self.has_node(i),
            0 <= k <= self.children(i).len(),
        ensures
            self.subtrees(i, k).len() == self.children(i).len() - k,
            forall|j: int|
                0 <= j < self.children(i).len() - k ==> #[trigger] self.subtrees(i, k)[j]
                    == self.subtree(self.children(i)[k + j]),
        decreases self.children(i).len() - k,
    {
        if k < self.children(i).len() {
            assert(self.child_slot(i, k));
            self.lemma_subtrees(i, k + 1);
        }
    }

    /// The node reached from `p` by going to its first child and then `k`
    /// times to the next sibling.
    pub open spec fn nth_child(self, p: int, k: nat) -> Option<int>
        decreases k,
    {
        if k == 0 {
            self.first_child(p)
        } else {
            match self.nth_child(p, (k - 1) as nat) {
                Some(c) => self.next_sibling(c),
                None => None,
            }
        }
    }

    /// Walking from the first child along the next siblings visits the child
    /// chain in order, and ends after its last entry.
    pub proof fn lemma_walk_children(self, p: int, k: nat)
        requires
            self.wf(),
            self.has_node(p),
        ensures
            self.nth_child(p, k) == (if k < self.children(p).len() {
                Some(self.children(p)[k as int])
            } else {
                None
            }),
        decreases k,
    {
        if k > 0 {
            self.lemma_walk_children(p, (k - 1) as nat);
            if k - 1 < self.children(p).len() {
                self.lemma_child_position(p, k - 1);
            }
        }
    }

    /// Parent and children agree. A node `n` with a parent stands in the
    /// child chain of that parent exactly once; its previous and next
    /// siblings are its neighbours there, and each of them names `n` in
    /// return; it has no previous sibling exactly where it is the first
    /// child, and no next sibling exactly where it is the last.
    pub proof fn lemma_parent_child_symmetry(self, n: int)
        requires
            self.wf(),
            self.has_node(n),
            self.parent(n) is Some,
        ensures
            ({
                let p = self.parent(n).unwrap();
                let k = self.position(n);
                &&& self.has_node(p)
                &&& 0 <= k < self.children(p).len()
                &&& self.children(p)[k] == n
                &&& forall|j: int|
                    0 <= j < self.children(p).len() && self.children(p)[j] == n ==> j == k
                &&& self.previous_sibling(n) == before(self.children(p), k)
                &&& self.next_sibling(n) == after(self.children(p), k)
                &&& self.previous_sibling(n) matches Some(b) ==> self.parent(b) == Some(p)
                    && self.next_sibling(b) == Some(n)
                &&& self.next_sibling(n) matches Some(a) ==> self.parent(a) == Some(p)
                    && self.previous_sibling(a) == Some(n)
                &&& self.previous_sibling(n) is None <==> self.first_child(p) == Some(n)
                &&& self.next_sibling(n) is None <==> self.last_child(p) == Some(n)
            }),
    {
        self.lemma_parent_position(n);
        let p = self.parent(n).unwrap();
        let k = self.position(n);
        assert(self.children(p).no_duplicates());
        if k > 0 {
            self.lemma_child_position(p, k - 1);
        }
        if k + 1 < self.children(p).len() {
            self.lemma_child_position(p, k + 1);
        }
    }

    /// The root has no parent and no siblings.
    pub proof fn lemma_root_is_detached(self)
        requires
            self.wf(),
        ensures
            self.parent(0) is None,
            self.previous_sibling(0) is None,
            self.next_sibling(0) is None,
    {
    }

    /// The tree after one `append_child` at `p` for each of `names`, in order.
    pub open spec fn append_children(self, p: int, names: Seq<Seq<char>>) -> TreeModel
        decreases names.len(),
    {
        if names.len() == 0 {
            self
        } else {
            self.append_children(p, names.drop_last()).append_child(
                p,
                names.last(),
                NodeType::Element,
            )
        }
    }

    /// The tree after one `prepend_child` at `p` for each of `names`, in order.
    pub open spec fn prepend_children(self, p: int, names: Seq<Seq<char>>) -> TreeModel
        decreases names.len(),
    {
        if names.len() == 0 {
            self
        } else {
            self.prepend_children(p, names.drop_last()).prepend_child(
                p,
                names.last(),
                NodeType::Element,
            )
        }
    }

    /// Repeated appending keeps the order of insertion: the new children
    /// follow the old ones in the order of the calls, and walking from the
    /// first child along the next siblings meets the `j`-th new child, with
    /// the `j`-th name, right after the old children and the new ones before
    /// it.
    pub proof fn lemma_append_order(self, p: int, names: Seq<Seq<char>>)
        requires
            self.wf(),
            self.has_node(p),
        ensures
            self.append_children(p, names).wf(),
            self.append_children(p, names).nodes.len() == self.nodes.len() + names.len(),
            self.append_children(p, names).children(p) == self.children(p) + Seq::new(
                names.len(),
                |j: int| self.nodes.len() + j,
            ),
            forall|j: int|
                0 <= j < names.len() ==> (#[trigger] self.append_children(p, names).nodes[self.nodes.len()
                    + j]).name == names[j],
            forall|j: int|
                0 <= j < names.len() ==> #[trigger] self.append_children(p, names).nth_child(
                    p,
                    (self.children(p).len() + j) as nat,
                ) == Some(self.nodes.len() + j),
        decreases names.len(),
    {
        let r = self.append_children(p, names);
        if names.len() == 0 {
            assert(r.children(p) =~= self.children(p) + Seq::new(0, |j: int| self.nodes.len() + j));
        } else {
            let front = names.drop_last();
            let m = self.append_children(p, front);
            self.lemma_append_order(p, front);
            m.lemma_insert_child(p, m.children(p).len() as int, names.last(), NodeType::Element);
            assert(r.children(p) =~= self.children(p) + Seq::new(
                names.len(),
                |j: int| self.nodes.len() + j,
            ));
            assert forall|j: int| 0 <= j < names.len() implies (#[trigger] r.nodes[self.nodes.len()
                + j]).name == names[j] by {
                if j < front.len() {
                    assert(m.nodes[self.nodes.len() + j].name == front[j]);
                }
            }
            assert forall|j: int| 0 <= j < names.len() implies #[trigger] r.nth_child(
                p,
                (self.children(p).len() + j) as nat,
            ) == Some(self.nodes.len() + j) by {
                r.lemma_walk_children(p, (self.children(p).len() + j) as nat);
            }
        }
    }

    /// Repeated prepending gives the reverse of the order of insertion: the
    /// new children stand before the old ones, the latest first, and walking
    /// from the first child along the next siblings meets the child of the
    /// `j`-th call, with the `j`-th name, after all those of later calls.
    pub proof fn lemma_prepend_order(self, p: int, names: Seq<Seq<char>>)
        requires
            self.wf(),
            self.has_node(p),
        ensures
            self.prepend_children(p, names).wf(),
            self.prepend_children(p, names).nodes.len() == self.nodes.len() + names.len(),
            self.prepend_children(p, names).children(p) == Seq::new(
                names.len(),
                |j: int| self.nodes.len() + names.len() - 1 - j,
            ) + self.children(p),
            forall|j: int|
                0 <= j < names.len() ==> (#[trigger] self.prepend_children(p, names).nodes[self.nodes.len()
                    + j]).name == names[j],
            forall|j: int|
                0 <= j < names.len() ==> #[trigger] self.prepend_children(p, names).nth_child(
                    p,
                    (names.len() - 1 - j) as nat,
                ) == Some(self.nodes.len() + j),
        decreases names.len(),
    {
        let r = self.prepend_children(p, names);
        if names.len() == 0 {
            assert(r.children(p) =~= Seq::new(
                0,
                |j: int| self.nodes.len() + names.len() - 1 - j,
            ) + self.children(p));
        } else {
            let front = names.drop_last();
            let m = self.prepend_children(p, front);
            self.lemma_prepend_order(p, front);
            m.lemma_insert_child(p, 0, names.last(), NodeType::Element);
            assert(r.children(p) =~= Seq::new(
                names.len(),
                |j: int| self.nodes.len() + names.len() - 1 - j,
            ) + self.children(p));
            assert forall|j: int| 0 <= j < names.len() implies (#[trigger] r.nodes[self.nodes.len()
                + j]).name == names[j] by {
                if j < front.len() {
                    assert(m.nodes[self.nodes.len() + j].name == front[j]);
                }
            }
            assert forall|j: int| 0 <= j < names.len() implies #[trigger] r.nth_child(
                p,
                (names.len() - 1 - j) as nat,
            ) == Some(self.nodes.len() + j) by {
                r.lemma_walk_children(p, (names.len() - 1 - j) as nat);
            }
        }
    }
}

} // verus!
