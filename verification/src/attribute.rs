//! Attributes: a name and a value, alone or in the chain of a node.

use vstd::prelude::*;
use vstd::string::*;
use vstd::utf8::{encode_utf8, encode_utf8_decode_utf8};
use crate::node::Node;

verus! {

/// A name and a value that belong to no tree.
#[derive(Debug)]
pub struct Attribute {
    name: String,
    value: String,
}

/// An attribute of a tree, for reading: the tree and the attribute's index
/// in it.
#[derive(Clone, Copy)]
pub struct AttributeRef<'a> {
    pub tree: &'a Node,
    pub at: usize,
}

/// An attribute of a tree, for changing it: the tree, exclusively borrowed,
/// and the attribute's index in it.
pub struct AttributeMut<'a> {
    pub tree: &'a mut Node,
    pub at: usize,
}

impl View for Attribute {
    type V = (Seq<char>, Seq<char>);

    closed spec fn view(&self) -> (Seq<char>, Seq<char>) {
        (self.name@, self.value@)
    }
}

impl Clone for Attribute {
    /// A copy with the same name and value.
    fn clone(&self) -> (r: Attribute)
        ensures
            r@ == self@,
    {
        Attribute { name: self.name.clone(), value: self.value.clone() }
    }
}

impl PartialEq for Attribute {
    /// Two attributes are equal where their names and their values are.
    fn eq(&self, other: &Attribute) -> (r: bool) {
        self.name == other.name && self.value == other.value
    }
}

impl vstd::std_specs::cmp::PartialEqSpecImpl for Attribute {
    open spec fn obeys_eq_spec() -> bool {
        true
    }

    open spec fn eq_spec(&self, other: &Attribute) -> bool {
        self@ == other@
    }
}

/// Whether two texts are the same, character by character.
pub fn same_text(a: &str, b: &str) -> (r: bool)
    ensures
        r == (a@ == b@),
{
    let x = a.as_bytes();
    let y = b.as_bytes();
    proof {
        encode_utf8_decode_utf8(a@);
        encode_utf8_decode_utf8(b@);
    }
    if x.len() != y.len() {
        return false;
    }
    let mut i: usize = 0;
    while i < x.len()
        invariant
            x@ == encode_utf8(a@),
            y@ == encode_utf8(b@),
            x@.len() == y@.len(),
            i <= x@.len(),
            forall|j: int| 0 <= j < i ==> x@[j] == y@[j],
        decreases x@.len() - i,
    {
        if x[i] != y[i] {
            return false;
        }
        i += 1;
    }
    assert(x@ =~= y@);
    true
}

impl Attribute {
    /// An attribute of the given name and value.
    pub fn new(name: &str, value: &str) -> (r: Attribute)
        ensures
            r@ == (name@, value@),
    {
        Attribute { name: String::from_str(name), value: String::from_str(value) }
    }

    /// The attribute's name.
    pub fn name(&self) -> (r: &str)
        ensures
            r@ == self@.0,
    {
        self.name.as_str()
    }

    /// The attribute's value.
    pub fn value(&self) -> (r: &str)
        ensures
            r@ == self@.1,
    {
        self.value.as_str()
    }

    /// Gives the attribute a new name, and hands it back for the next change.
    pub fn set_name(&mut self, name: &str) -> (r: &mut Self)
        ensures
            r@ == (name@, old(self)@.1),
            *final(self) == *final(r),
    {
        self.name = String::from_str(name);
        self
    }

    /// Gives the attribute a new value, and hands it back for the next change.
    pub fn set_value(&mut self, value: &str) -> (r: &mut Self)
        ensures
            r@ == (old(self)@.0, value@),
            *final(self) == *final(r),
    {
        self.value = String::from_str(value);
        self
    }
}

impl<'a> AttributeRef<'a> {
    /// The handle names an attribute of a well-formed tree.
    pub open spec fn wf(&self) -> bool {
        self.tree.wf() && self.at < self.tree@.attrs.len()
    }

    /// Whether `r` is the handle of attribute `target` of `tree`, or no
    /// handle where there is no such attribute.
    pub open spec fn is_link(r: Option<AttributeRef<'a>>, tree: &Node, target: Option<int>) -> bool {
        match r {
            Some(h) => h.wf() && *h.tree == *tree && target == Some(h.at as int),
            None => target is None,
        }
    }

    /// The attribute's index in its tree.
    pub fn index(&self) -> (r: usize)
        ensures
            r == self.at,
    {
        self.at
    }

    /// The attribute's name.
    pub fn name(&self) -> (r: &'a str)
        requires
            self.wf(),
        ensures
            r@ == self.tree@.attrs[self.at as int].name,
    {
        self.tree.attribute_name_at(self.at)
    }

    /// The attribute's value.
    pub fn value(&self) -> (r: &'a str)
        requires
            self.wf(),
        ensures
            r@ == self.tree@.attrs[self.at as int].value,
    {
        self.tree.attribute_value_at(self.at)
    }

    /// A copy of the attribute's name and value that belongs to no tree.
    pub fn to_attribute(&self) -> (r: Attribute)
        requires
            self.wf(),
        ensures
            r@ == (self.tree@.attrs[self.at as int].name, self.tree@.attrs[self.at as int].value),
    {
        Attribute::new(self.name(), self.value())
    }

    /// The next attribute in the chain of the node that owns this one.
    pub fn next_attribute(&self) -> (r: Option<AttributeRef<'a>>)
        requires
            self.wf(),
        ensures
            AttributeRef::is_link(r, self.tree, self.tree@.next_attribute(self.at as int)),
    {
        match self.tree.next_attribute_at(self.at) {
            Some(a) => Some(AttributeRef { tree: self.tree, at: a }),
            None => None,
        }
    }

    /// The attribute before this one in the chain of the node that owns it.
    pub fn previous_attribute(&self) -> (r: Option<AttributeRef<'a>>)
        requires
            self.wf(),
        ensures
            AttributeRef::is_link(r, self.tree, self.tree@.previous_attribute(self.at as int)),
    {
        match self.tree.previous_attribute_at(self.at) {
            Some(a) => Some(AttributeRef { tree: self.tree, at: a }),
            None => None,
        }
    }
}

impl<'a> AttributeMut<'a> {
    /// The handle names an attribute of a well-formed tree.
    pub open spec fn wf(&self) -> bool {
        self.tree.wf() && self.at < self.tree@.attrs.len()
    }

    /// The tree as it stands.
    pub open spec fn current(&self) -> Node {
        *self.tree
    }

    /// The attribute's index in its tree.
    pub fn index(&self) -> (r: usize)
        ensures
            r == self.at,
    {
        self.at
    }

    /// The same attribute, for reading.
    pub fn as_ref(&self) -> (r: AttributeRef<'_>)
        requires
            self.wf(),
        ensures
            r.wf(),
            *r.tree == self.current(),
            r.at == self.at,
    {
        AttributeRef { tree: &*self.tree, at: self.at }
    }

    /// The attribute's name.
    pub fn name(&self) -> (r: &str)
        requires
            self.wf(),
        ensures
            r@ == self.current()@.attrs[self.at as int].name,
    {
        self.tree.attribute_name_at(self.at)
    }

    /// The attribute's value.
    pub fn value(&self) -> (r: &str)
        requires
            self.wf(),
        ensures
            r@ == self.current()@.attrs[self.at as int].value,
    {
        self.tree.attribute_value_at(self.at)
    }

    /// Gives the attribute a new name, and hands the handle back for the next
    /// change.
    pub fn set_name(&mut self, name: &str) -> (r: &mut Self)
        requires
            old(self).wf(),
        ensures
            r.wf(),
            r.at == old(self).at,
            r.tree@ == old(self).tree@.with_attribute_name(old(self).at as int, name@),
            *final(r.tree) == *final(old(self).tree),
            *final(self) == *final(r),
    {
        self.tree.set_attribute_name_at(self.at, String::from_str(name));
        self
    }

    /// Gives the attribute a new value, and hands the handle back for the
    /// next change.
    pub fn set_value(&mut self, value: &str) -> (r: &mut Self)
        requires
            old(self).wf(),
        ensures
            r.wf(),
            r.at == old(self).at,
            r.tree@ == old(self).tree@.with_attribute_value(old(self).at as int, value@),
            *final(r.tree) == *final(old(self).tree),
            *final(self) == *final(r),
    {
        self.tree.set_attribute_value_at(self.at, String::from_str(value));
        self
    }

    /// The next attribute in the chain of the node that owns this one. The
    /// handle that comes back borrows the tree from this one.
    pub fn next_attribute_mut(&mut self) -> (r: Option<AttributeMut<'_>>)
        requires
            old(self).wf(),
        ensures
            final(self).at == old(self).at,
            *final(final(self).tree) == *final(old(self).tree),
            match r {
                Some(h) => {
                    &&& h.wf()
                    &&& *h.tree == *old(self).tree
                    &&& old(self).tree@.next_attribute(old(self).at as int) == Some(h.at as int)
                    &&& *final(self).tree == *final(h.tree)
                },
                None => {
                    &&& old(self).tree@.next_attribute(old(self).at as int) is None
                    &&& *final(self).tree == *old(self).tree
                },
            },
    {
        match self.tree.next_attribute_at(self.at) {
            Some(a) => Some(AttributeMut { tree: &mut *self.tree, at: a }),
            None => None,
        }
    }

    /// The attribute before this one in the chain of the node that owns it.
    /// The handle that comes back borrows the tree from this one.
    pub fn previous_attribute_mut(&mut self) -> (r: Option<AttributeMut<'_>>)
        requires
            old(self).wf(),
        ensures
            final(self).at == old(self).at,
            *final(final(self).tree) == *final(old(self).tree),
            match r {
                Some(h) => {
                    &&& h.wf()
                    &&& *h.tree == *old(self).tree
                    &&& old(self).tree@.previous_attribute(old(self).at as int) == Some(h.at as int)
                    &&& *final(self).tree == *final(h.tree)
                },
                None => {
                    &&& old(self).tree@.previous_attribute(old(self).at as int) is None
                    &&& *final(self).tree == *old(self).tree
                },
            },
    {
        match self.tree.previous_attribute_at(self.at) {
            Some(a) => Some(AttributeMut { tree: &mut *self.tree, at: a }),
            None => None,
        }
    }
}

} // verus!
