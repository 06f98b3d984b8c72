//! Writing a tree and parsing the text again gives the same tree.
//!
//! This holds of the trees that the parser can tell apart in their text:
//! elements with names that a tag can carry, attributes whose names and
//! values survive their quotes, and text that stands first among the
//! children of its element. `printable` says which trees these are, and
//! `lemma_round_trip` states the law.

use vstd::prelude::*;
use vstd::utf8::{
    encode_utf8, encode_utf8_decode_utf8, encode_utf8_valid_utf8, is_ascii_chars,
    is_ascii_chars_encode_utf8,
};
use crate::chartype::{
    ends_name, find_byte, find_name_end, is_blank, skip_blanks, EQUAL, EXCLAMATION_MARK,
    GREATER_THAN, LESS_THAN, QUESTION_MARK, SLASH,
};
use crate::model::{Element, TreeModel};
use crate::node::NodeType;
use crate::parser::{
    add_attribute, add_text, blank_tree, close_element, open_element, parse_attribute,
    parse_content, parse_spec, parse_start, parse_tag, parse_tag_close, parse_tag_open, text_of,
};
use crate::writer::{
    lemma_attribute_quoting, quote_for, render, render_all, render_attribute, render_attributes,
};

verus! {

/// The bytes that a text is written as.
pub open spec fn bytes(text: Seq<char>) -> Seq<u8> {
    encode_utf8(text)
}

/// The byte of the quote that stands around a value.
pub open spec fn quote_byte(value: Seq<char>) -> u8 {
    if value.contains('\'') {
        34
    } else {
        39
    }
}

/// A name that an element's tags can carry: it holds neither white space nor
/// `>`, and does not start with `/`, `!` or `?`.
pub open spec fn plain_name(name: Seq<char>) -> bool {
    let b = bytes(name);
    &&& forall|i: int| 0 <= i < b.len() ==> !ends_name(#[trigger] b[i])
    &&& b.len() > 0 ==> b[0] != SLASH && b[0] != EXCLAMATION_MARK && b[0] != QUESTION_MARK
}

/// None of the nodes is an element.
pub open spec fn no_elements(es: Seq<Element>) -> bool {
    forall|j: int| 0 <= j < es.len() ==> (#[trigger] es[j]).kind != NodeType::Element
}

/// An attribute that survives its quotes: the name holds no `=` and does not
/// start with white space, `/` or `>`, and the value does not hold the quote
/// that is written around it.
pub open spec fn plain_attribute(name: Seq<char>, value: Seq<char>) -> bool {
    let n = bytes(name);
    let v = bytes(value);
    &&& forall|i: int| 0 <= i < n.len() ==> #[trigger] n[i] != EQUAL
    &&& n.len() > 0 ==> !is_blank(n[0]) && n[0] != SLASH && n[0] != GREATER_THAN
    &&& forall|i: int| 0 <= i < v.len() ==> #[trigger] v[i] != quote_byte(value)
}

/// A text that is read back as it is: it is not empty, does not start with
/// white space and holds no `<`.
pub open spec fn plain_text(value: Seq<char>) -> bool {
    let v = bytes(value);
    &&& v.len() > 0
    &&& !is_blank(v[0])
    &&& forall|i: int| 0 <= i < v.len() ==> #[trigger] v[i] != LESS_THAN
}

/// Every attribute of the chain from position `k` on is plain.
pub open spec fn plain_attributes(attributes: Seq<(Seq<char>, Seq<char>)>, k: int) -> bool {
    forall|j: int|
        k <= j < attributes.len() ==> plain_attribute(
            (#[trigger] attributes[j]).0,
            attributes[j].1,
        )
}

/// A tree that is read back as it was written. Its nodes are elements and
/// texts. An element has a plain name, no value and plain attributes; among
/// its children only the first may be a text; and it has a name at all
/// where one of its children is an element. A text has a plain value and
/// nothing else: no name, no attributes, no children.
pub open spec fn printable(e: Element) -> bool
    decreases e, 0int,
{
    match e.kind {
        NodeType::Element => {
            &&& plain_name(e.name)
            &&& e.name.len() > 0 || no_elements(e.children)
            &&& e.value.len() == 0
            &&& plain_attributes(e.attributes, 0)
            &&& printable_all(e.children, 0)
        },
        NodeType::PcData => {
            &&& e.name.len() == 0
            &&& plain_text(e.value)
            &&& e.attributes.len() == 0
            &&& e.children.len() == 0
        },
        _ => false,
    }
}

/// The children from position `k` on are printable, and all of them but the
/// very first of the chain are elements.
pub open spec fn printable_all(es: Seq<Element>, k: int) -> bool
    decreases es, es.len() - k,
{
    if 0 <= k < es.len() {
        &&& printable(es[k])
        &&& k > 0 ==> es[k].kind == NodeType::Element
        &&& printable_all(es, k + 1)
    } else {
        true
    }
}

/// A tree that is a whole document and is read back as it was written: a
/// printable element with a name.
pub open spec fn printable_document(e: Element) -> bool {
    e.kind == NodeType::Element && e.name.len() > 0 && printable(e)
}

/// The bytes of two texts written one after the other are the bytes of the
/// one followed by the bytes of the other.
pub proof fn lemma_bytes_concat(a: Seq<char>, b: Seq<char>)
    ensures
        bytes(a + b) == bytes(a) + bytes(b),
    decreases a.len(),
{
    if a.len() == 0 {
        assert(a + b =~= b);
        assert(bytes(a) + bytes(b) =~= bytes(b));
    } else {
        assert((a + b).drop_first() =~= a.drop_first() + b);
        lemma_bytes_concat(a.drop_first(), b);
        assert(bytes(a + b) =~= bytes(a) + bytes(b));
    }
}

/// The bytes of a text of one or two ASCII characters.
proof fn lemma_bytes_ascii(text: Seq<char>)
    requires
        is_ascii_chars(text),
    ensures
        bytes(text) == Seq::new(text.len(), |i: int| text[i] as u8),
{
    is_ascii_chars_encode_utf8(text);
    assert(bytes(text) =~= Seq::new(text.len(), |i: int| text[i] as u8));
}

/// The bytes of an attribute's text: a space, the name, `=`, a quote, the
/// value, the quote.
pub open spec fn attribute_bytes(name: Seq<char>, value: Seq<char>) -> Seq<u8> {
    seq![32u8] + bytes(name) + seq![61u8, quote_byte(value)] + bytes(value) + seq![
        quote_byte(value),
    ]
}

/// The bytes of an attribute's text are `attribute_bytes`.
pub proof fn lemma_attribute_bytes(name: Seq<char>, value: Seq<char>)
    ensures
        bytes(render_attribute(name, value)) == attribute_bytes(name, value),
{
    lemma_attribute_quoting(name, value);
    let q = quote_for(value);
    let a = seq![' '];
    let b = seq!['=', q];
    let c = seq![q];
    lemma_bytes_ascii(a);
    lemma_bytes_ascii(b);
    lemma_bytes_ascii(c);
    assert(bytes(a) =~= seq![32u8]);
    assert(bytes(b) =~= seq![61u8, quote_byte(value)]);
    assert(bytes(c) =~= seq![quote_byte(value)]);
    lemma_bytes_concat(a, name);
    lemma_bytes_concat(a + name, b);
    lemma_bytes_concat(a + name + b, value);
    lemma_bytes_concat(a + name + b + value, c);
}

/// The bytes of a chain of attributes from position `k` on.
pub proof fn lemma_attributes_bytes(attributes: Seq<(Seq<char>, Seq<char>)>, k: int)
    ensures
        0 <= k < attributes.len() ==> bytes(render_attributes(attributes, k)) == attribute_bytes(
            attributes[k].0,
            attributes[k].1,
        ) + bytes(render_attributes(attributes, k + 1)),
        !(0 <= k < attributes.len()) ==> bytes(render_attributes(attributes, k)) == Seq::<
            u8,
        >::empty(),
{
    if 0 <= k < attributes.len() {
        lemma_attribute_bytes(attributes[k].0, attributes[k].1);
        lemma_bytes_concat(
            render_attribute(attributes[k].0, attributes[k].1),
            render_attributes(attributes, k + 1),
        );
    } else {
        assert(bytes(Seq::<char>::empty()) =~= Seq::<u8>::empty());
    }
}

/// The bytes of a chain of nodes from position `k` on.
pub proof fn lemma_all_bytes(es: Seq<Element>, k: int)
    ensures
        0 <= k < es.len() ==> bytes(render_all(es, k)) == bytes(render(es[k])) + bytes(
            render_all(es, k + 1),
        ),
        !(0 <= k < es.len()) ==> bytes(render_all(es, k)) == Seq::<u8>::empty(),
{
    if 0 <= k < es.len() {
        lemma_bytes_concat(render(es[k]), render_all(es, k + 1));
    } else {
        assert(bytes(Seq::<char>::empty()) =~= Seq::<u8>::empty());
    }
}

/// What follows the name in the bytes of an element: the attributes, `>`,
/// the children, and the closing tag.
pub open spec fn body_bytes(e: Element) -> Seq<u8> {
    bytes(render_attributes(e.attributes, 0)) + seq![62u8] + bytes(render_all(e.children, 0))
        + seq![60u8, 47u8] + bytes(e.name) + seq![62u8]
}

/// The bytes of an element: `<`, the name, and the body.
pub proof fn lemma_element_bytes(e: Element)
    requires
        e.kind == NodeType::Element,
    ensures
        bytes(render(e)) == seq![60u8] + bytes(e.name) + body_bytes(e),
{
    reveal_strlit("<");
    reveal_strlit(">");
    reveal_strlit("</");
    let lt = "<"@;
    let gt = ">"@;
    let close = "</"@;
    lemma_bytes_ascii(lt);
    lemma_bytes_ascii(gt);
    lemma_bytes_ascii(close);
    assert(bytes(lt) =~= seq![60u8]);
    assert(bytes(gt) =~= seq![62u8]);
    assert(bytes(close) =~= seq![60u8, 47u8]);
    let attrs = render_attributes(e.attributes, 0);
    let kids = render_all(e.children, 0);
    lemma_bytes_concat(lt, e.name);
    lemma_bytes_concat(lt + e.name, attrs);
    lemma_bytes_concat(lt + e.name + attrs, gt);
    lemma_bytes_concat(lt + e.name + attrs + gt, kids);
    lemma_bytes_concat(lt + e.name + attrs + gt + kids, close);
    lemma_bytes_concat(lt + e.name + attrs + gt + kids + close, e.name);
    lemma_bytes_concat(lt + e.name + attrs + gt + kids + close + e.name, gt);
    assert(bytes(render(e)) =~= seq![60u8] + bytes(e.name) + body_bytes(e));
}

/// The tree after the attributes of a chain from position `k` on were
/// appended to node `c`, one after the other.
pub open spec fn add_attributes(
    t: TreeModel,
    c: int,
    attributes: Seq<(Seq<char>, Seq<char>)>,
    k: int,
) -> TreeModel
    decreases attributes.len() - k,
{
    if 0 <= k < attributes.len() {
        add_attributes(
            t.append_attribute(c, attributes[k].0, attributes[k].1),
            c,
            attributes,
            k + 1,
        )
    } else {
        t
    }
}

/// The tree after `e`, with everything below it, became the last child of
/// node `c`: a text as a text node, an element as an element that is then
/// filled.
pub open spec fn add_node(t: TreeModel, c: int, e: Element) -> TreeModel
    decreases e, 2int,
{
    if e.kind == NodeType::PcData {
        add_text(t, c, e.value)
    } else {
        add_element(t, c, e)
    }
}

/// The tree after the element `e`, with everything below it, became the last
/// child of node `p`.
pub open spec fn add_element(t: TreeModel, p: int, e: Element) -> TreeModel
    decreases e, 1int,
{
    fill(t.append_child(p, e.name, NodeType::Element), t.nodes.len() as int, e)
}

/// The tree after node `c` was given the attributes and the children of `e`.
pub open spec fn fill(t: TreeModel, c: int, e: Element) -> TreeModel
    decreases e, 0int,
{
    add_children(add_attributes(t, c, e.attributes, 0), c, e.children, 0)
}

/// The tree after the nodes of `es` from position `k` on became the last
/// children of node `c`, one after the other.
pub open spec fn add_children(t: TreeModel, c: int, es: Seq<Element>, k: int) -> TreeModel
    decreases es, es.len() - k,
{
    if 0 <= k < es.len() {
        add_children(add_node(t, c, es[k]), c, es, k + 1)
    } else {
        t
    }
}

/// The tree that a document is read as: the root takes the name, the
/// attributes and the children of `e`.
pub open spec fn document_tree(e: Element) -> TreeModel {
    fill(blank_tree().with_name(0, e.name), 0, e)
}

/// `r` holds all that `t` holds, unchanged but for the chains of node `c`.
pub open spec fn extends(t: TreeModel, r: TreeModel, c: int) -> bool {
    &&& t.nodes.len() <= r.nodes.len()
    &&& t.attrs.len() <= r.attrs.len()
    &&& forall|q: int| 0 <= q < t.nodes.len() && q != c ==> #[trigger] r.nodes[q] == t.nodes[q]
    &&& forall|a: int| 0 <= a < t.attrs.len() ==> #[trigger] r.attrs[a] == t.attrs[a]
    &&& r.nodes[c].name == t.nodes[c].name
    &&& r.nodes[c].value == t.nodes[c].value
    &&& r.nodes[c].kind == t.nodes[c].kind
    &&& r.nodes[c].parent == t.nodes[c].parent
}

/// A subtree is made of its root and of younger nodes only: where these and
/// the attributes are the same in two trees, so is the subtree.
proof fn lemma_subtree_unchanged(t: TreeModel, r: TreeModel, x: int)
    requires
        t.wf(),
        t.has_node(x),
        t.nodes.len() <= r.nodes.len(),
        t.attrs.len() <= r.attrs.len(),
        forall|q: int| x <= q < t.nodes.len() ==> #[trigger] r.nodes[q] == t.nodes[q],
        forall|a: int| 0 <= a < t.attrs.len() ==> #[trigger] r.attrs[a] == t.attrs[a],
    ensures
        r.subtree(x) == t.subtree(x),
    decreases t.nodes.len() - x, t.children(x).len() + 1,
{
    assert(r.nodes[x] == t.nodes[x]);
    assert(r.attribute_pairs(x) =~= t.attribute_pairs(x)) by {
        assert forall|k: int| 0 <= k < t.attributes(x).len() implies r.attribute_pairs(x)[k]
            == t.attribute_pairs(x)[k] by {
            assert(t.attribute_slot(x, k));
        }
    }
    lemma_subtrees_unchanged(t, r, x, 0);
}

/// The same for the subtrees of the children of `x` from position `k` on.
proof fn lemma_subtrees_unchanged(t: TreeModel, r: TreeModel, x: int, k: int)
    requires
        t.wf(),
        t.has_node(x),
        0 <= k <= t.children(x).len(),
        t.nodes.len() <= r.nodes.len(),
        t.attrs.len() <= r.attrs.len(),
        forall|q: int| x <= q < t.nodes.len() ==> #[trigger] r.nodes[q] == t.nodes[q],
        forall|a: int| 0 <= a < t.attrs.len() ==> #[trigger] r.attrs[a] == t.attrs[a],
    ensures
        r.subtrees(x, k) == t.subtrees(x, k),
    decreases t.nodes.len() - x, t.children(x).len() - k,
{
    assert(r.nodes[x] == t.nodes[x]);
    if k < t.children(x).len() {
        assert(t.child_slot(x, k));
        lemma_subtree_unchanged(t, r, t.children(x)[k]);
        lemma_subtrees_unchanged(t, r, x, k + 1);
    }
}

/// Appending a child leaves the subtrees of the older children alone and
/// adds the subtree of the new one.
proof fn lemma_subtrees_grow(t: TreeModel, r: TreeModel, c: int, e: Element)
    requires
        t.wf(),
        r.wf(),
        t.has_node(c),
        extends(t, r, c),
        r.children(c) == t.children(c).push(t.nodes.len() as int),
        r.nodes.len() > t.nodes.len(),
        r.subtree(t.nodes.len() as int) == e,
    ensures
        r.subtrees(c, 0) == t.subtrees(c, 0).push(e),
{
    t.lemma_subtrees(c, 0);
    r.lemma_subtrees(c, 0);
    assert forall|j: int| 0 <= j < r.children(c).len() implies r.subtrees(c, 0)[j]
        == t.subtrees(c, 0).push(e)[j] by {
        if j < t.children(c).len() {
            assert(t.child_slot(c, j));
            lemma_subtree_unchanged(t, r, t.children(c)[j]);
        }
    }
    assert(r.subtrees(c, 0) =~= t.subtrees(c, 0).push(e));
}

/// What `add_attributes` does to a tree.
proof fn lemma_add_attributes(
    t: TreeModel,
    c: int,
    attributes: Seq<(Seq<char>, Seq<char>)>,
    k: int,
)
    requires
        t.wf(),
        t.has_node(c),
        0 <= k <= attributes.len(),
    ensures
        add_attributes(t, c, attributes, k).wf(),
        extends(t, add_attributes(t, c, attributes, k), c),
        add_attributes(t, c, attributes, k).nodes.len() == t.nodes.len(),
        add_attributes(t, c, attributes, k).children(c) == t.children(c),
        add_attributes(t, c, attributes, k).attribute_pairs(c) == t.attribute_pairs(c)
            + attributes.skip(k),
    decreases attributes.len() - k,
{
    let r = add_attributes(t, c, attributes, k);
    if k < attributes.len() {
        let t1 = t.append_attribute(c, attributes[k].0, attributes[k].1);
        t.lemma_insert_attribute(
            c,
            t.attributes(c).len() as int,
            attributes[k].0,
            attributes[k].1,
        );
        lemma_add_attributes(t1, c, attributes, k + 1);
        assert(t1.attribute_pairs(c) =~= t.attribute_pairs(c).push(attributes[k])) by {
            assert forall|j: int| 0 <= j < t.attributes(c).len() implies t1.attribute_pairs(c)[j]
                == t.attribute_pairs(c)[j] by {
                assert(t.attribute_slot(c, j));
            }
        }
        assert(r.attribute_pairs(c) =~= t.attribute_pairs(c) + attributes.skip(k));
        assert forall|q: int| 0 <= q < t.nodes.len() && q != c implies #[trigger] r.nodes[q]
            == t.nodes[q] by {
            assert(r.nodes[q] == t1.nodes[q]);
        }
        assert forall|a: int| 0 <= a < t.attrs.len() implies #[trigger] r.attrs[a]
            == t.attrs[a] by {
            assert(r.attrs[a] == t1.attrs[a]);
        }
    } else {
        assert(r.attribute_pairs(c) =~= t.attribute_pairs(c) + attributes.skip(k));
    }
}

/// What `add_node` does to a tree: the new child is the next free node, it
/// stands last among the children of `c`, and below it hangs `e`.
proof fn lemma_add_node(t: TreeModel, c: int, e: Element)
    requires
        t.wf(),
        t.has_node(c),
        printable(e),
    ensures
        add_node(t, c, e).wf(),
        extends(t, add_node(t, c, e), c),
        add_node(t, c, e).nodes.len() > t.nodes.len(),
        add_node(t, c, e).children(c) == t.children(c).push(t.nodes.len() as int),
        add_node(t, c, e).attributes(c) == t.attributes(c),
        add_node(t, c, e).subtree(t.nodes.len() as int) == e,
        add_node(t, c, e).nodes[t.nodes.len() as int].parent == Some(c),
    decreases e, 2int,
{
    let x = t.nodes.len() as int;
    let r = add_node(t, c, e);
    if e.kind == NodeType::PcData {
        let t1 = t.append_child(c, Seq::empty(), NodeType::PcData);
        t.lemma_insert_child(c, t.children(c).len() as int, Seq::empty(), NodeType::PcData);
        t1.lemma_with_fields_wf(x, Seq::empty(), e.value, NodeType::PcData);
        assert(t.children(c).insert(t.children(c).len() as int, x) =~= t.children(c).push(x));
        assert(r.attribute_pairs(x) =~= e.attributes);
        assert(r.subtrees(x, 0) =~= e.children);
        assert(e.name =~= Seq::<char>::empty());
    } else {
        let t1 = t.append_child(c, e.name, NodeType::Element);
        t.lemma_insert_child(c, t.children(c).len() as int, e.name, NodeType::Element);
        assert(t.children(c).insert(t.children(c).len() as int, x) =~= t.children(c).push(x));
        lemma_fill(t1, x, e);
        assert forall|q: int| 0 <= q < t.nodes.len() && q != c implies #[trigger] r.nodes[q]
            == t.nodes[q] by {
            assert(r.nodes[q] == t1.nodes[q]);
        }
        assert(r.nodes[c] == t1.nodes[c]);
    }
}

/// What `fill` does to a tree: below the node that was filled hangs `e`.
proof fn lemma_fill(t: TreeModel, c: int, e: Element)
    requires
        t.wf(),
        t.has_node(c),
        printable(e),
        e.kind == NodeType::Element,
        t.nodes[c].name == e.name,
        t.nodes[c].value.len() == 0,
        t.nodes[c].kind == NodeType::Element,
        t.children(c).len() == 0,
        t.attributes(c).len() == 0,
    ensures
        fill(t, c, e).wf(),
        extends(t, fill(t, c, e), c),
        fill(t, c, e).subtree(c) == e,
    decreases e, 0int,
{
    let t2 = add_attributes(t, c, e.attributes, 0);
    lemma_add_attributes(t, c, e.attributes, 0);
    let r = add_children(t2, c, e.children, 0);
    lemma_add_children(t2, c, e.children, 0);
    assert(t.attribute_pairs(c) + e.attributes.skip(0) =~= e.attributes);
    assert(t2.subtrees(c, 0) + e.children.skip(0) =~= e.children);
    assert(r.attribute_pairs(c) =~= t2.attribute_pairs(c)) by {
        assert forall|k: int| 0 <= k < t2.attributes(c).len() implies r.attribute_pairs(c)[k]
            == t2.attribute_pairs(c)[k] by {
            assert(t2.attribute_slot(c, k));
        }
    }
    assert(e.value =~= r.nodes[c].value);
    assert forall|q: int| 0 <= q < t.nodes.len() && q != c implies #[trigger] r.nodes[q]
        == t.nodes[q] by {
        assert(r.nodes[q] == t2.nodes[q]);
    }
    assert forall|a: int| 0 <= a < t.attrs.len() implies #[trigger] r.attrs[a] == t.attrs[a] by {
        assert(r.attrs[a] == t2.attrs[a]);
    }
}

/// What `add_children` does to a tree: the subtrees of the children of `c`
/// are those that were there, followed by the nodes that were added.
proof fn lemma_add_children(t: TreeModel, c: int, es: Seq<Element>, k: int)
    requires
        t.wf(),
        t.has_node(c),
        0 <= k <= es.len(),
        printable_all(es, k),
    ensures
        add_children(t, c, es, k).wf(),
        extends(t, add_children(t, c, es, k), c),
        add_children(t, c, es, k).attributes(c) == t.attributes(c),
        add_children(t, c, es, k).subtrees(c, 0) == t.subtrees(c, 0) + es.skip(k),
    decreases es, es.len() - k,
{
    let r = add_children(t, c, es, k);
    if k < es.len() {
        let t1 = add_node(t, c, es[k]);
        lemma_add_node(t, c, es[k]);
        lemma_subtrees_grow(t, t1, c, es[k]);
        lemma_add_children(t1, c, es, k + 1);
        assert(r.subtrees(c, 0) =~= t.subtrees(c, 0) + es.skip(k));
        assert forall|q: int| 0 <= q < t.nodes.len() && q != c implies #[trigger] r.nodes[q]
            == t.nodes[q] by {
            assert(r.nodes[q] == t1.nodes[q]);
        }
        assert forall|a: int| 0 <= a < t.attrs.len() implies #[trigger] r.attrs[a]
            == t.attrs[a] by {
            assert(r.attrs[a] == t1.attrs[a]);
        }
    } else {
        assert(r.subtrees(c, 0) =~= t.subtrees(c, 0) + es.skip(k));
    }
}

/// The tree that a printable document is read as is well-formed, and what
/// hangs below its root is the document.
pub proof fn lemma_document_tree(e: Element)
    requires
        printable_document(e),
    ensures
        document_tree(e).wf(),
        document_tree(e).subtree(0) == e,
{
    let t = blank_tree().with_name(0, e.name);
    assert(blank_tree().children(0).no_duplicates());
    assert(blank_tree().attributes(0).no_duplicates());
    assert(blank_tree().wf());
    blank_tree().lemma_with_fields_wf(0, e.name, Seq::empty(), NodeType::Element);
    lemma_fill(t, 0, e);
}

/// The bytes `m` stand in `s` from position `a` on.
pub open spec fn holds_at(s: Seq<u8>, a: int, m: Seq<u8>) -> bool {
    0 <= a && a + m.len() <= s.len() && s.subrange(a, a + m.len()) == m
}

/// After position `z` the input ends or a tag starts.
pub open spec fn tag_or_end(s: Seq<u8>, z: int) -> bool {
    z == s.len() || (0 <= z < s.len() && s[z] == LESS_THAN)
}

/// Where two runs of bytes stand one after the other, each of them stands
/// at its place.
proof fn lemma_holds_split(s: Seq<u8>, a: int, x: Seq<u8>, y: Seq<u8>)
    requires
        holds_at(s, a, x + y),
    ensures
        holds_at(s, a, x),
        holds_at(s, a + x.len(), y),
{
    let m = x + y;
    assert(s.subrange(a, a + x.len()) =~= m.subrange(0, x.len() as int));
    assert(m.subrange(0, x.len() as int) =~= x);
    assert(s.subrange(a + x.len(), a + x.len() + y.len()) =~= m.subrange(
        x.len() as int,
        m.len() as int,
    ));
    assert(m.subrange(x.len() as int, m.len() as int) =~= y);
}

/// The bytes that stand in `s` are found there one by one.
proof fn lemma_holds_index(s: Seq<u8>, a: int, m: Seq<u8>, j: int)
    requires
        holds_at(s, a, m),
        0 <= j < m.len(),
    ensures
        s[a + j] == m[j],
{
    assert(s.subrange(a, a + m.len())[j] == s[a + j]);
}

/// `find_byte` finds the first `b` where it stands.
proof fn lemma_find_byte_is(s: Seq<u8>, from: int, b: u8, k: int)
    requires
        0 <= from <= k < s.len(),
        s[k] == b,
        forall|j: int| from <= j < k ==> s[j] != b,
    ensures
        find_byte(s, from, b) == k,
    decreases k - from,
{
    if from < k {
        lemma_find_byte_is(s, from + 1, b, k);
    }
}

/// `find_name_end` finds the end of a name where it stands.
proof fn lemma_find_name_end_is(s: Seq<u8>, from: int, k: int)
    requires
        0 <= from <= k < s.len(),
        ends_name(s[k]),
        forall|j: int| from <= j < k ==> !ends_name(s[j]),
    ensures
        find_name_end(s, from) == k,
    decreases k - from,
{
    if from < k {
        lemma_find_name_end_is(s, from + 1, k);
    }
}

/// The bytes that stand in `s` from `from` up to `to` are those of `text`:
/// then they spell `text`.
proof fn lemma_text_of(s: Seq<u8>, from: int, to: int, text: Seq<char>)
    requires
        holds_at(s, from, bytes(text)),
        to == from + bytes(text).len(),
    ensures
        text_of(s, from, to) == Some(text),
{
    encode_utf8_valid_utf8(text);
    encode_utf8_decode_utf8(text);
}

/// The bytes of a printable element start with `<`.
proof fn lemma_element_starts(e: Element)
    requires
        e.kind == NodeType::Element,
    ensures
        bytes(render(e)).len() > 0,
        bytes(render(e))[0] == LESS_THAN,
{
    lemma_element_bytes(e);
}

/// The bytes of a chain of attributes start with a space, if there are any.
proof fn lemma_attributes_start(attributes: Seq<(Seq<char>, Seq<char>)>, k: int)
    requires
        0 <= k <= attributes.len(),
    ensures
        k < attributes.len() ==> bytes(render_attributes(attributes, k)).len() > 0 && bytes(
            render_attributes(attributes, k),
        )[0] == 32,
        k == attributes.len() ==> bytes(render_attributes(attributes, k)).len() == 0,
{
    lemma_attributes_bytes(attributes, k);
}

/// Reading the attributes of a tag, up to its `>`.
proof fn lemma_parse_attributes(
    s: Seq<u8>,
    a: int,
    t: TreeModel,
    c: int,
    attributes: Seq<(Seq<char>, Seq<char>)>,
    k: int,
)
    requires
        0 <= k <= attributes.len(),
        plain_attributes(attributes, k),
        holds_at(s, a, bytes(render_attributes(attributes, k))),
        a + bytes(render_attributes(attributes, k)).len() < s.len(),
        s[a + bytes(render_attributes(attributes, k)).len()] == GREATER_THAN,
    ensures
        parse_attribute(s, a, t, Some(c)) == parse_content(
            s,
            a + bytes(render_attributes(attributes, k)).len(),
            add_attributes(t, c, attributes, k),
            Some(c),
        ),
    decreases attributes.len() - k,
{
    lemma_attributes_bytes(attributes, k);
    if k < attributes.len() {
        let name = attributes[k].0;
        let value = attributes[k].1;
        let nb = bytes(name);
        let vb = bytes(value);
        let q = quote_byte(value);
        let ab = attribute_bytes(name, value);
        let rest = bytes(render_attributes(attributes, k + 1));
        assert(plain_attribute(name, value));
        lemma_holds_split(s, a, ab, rest);
        let head = seq![32u8] + nb + seq![61u8, q] + vb;
        lemma_holds_split(s, a, head, seq![q]);
        let head2 = seq![32u8] + nb + seq![61u8, q];
        lemma_holds_split(s, a, head2, vb);
        let head3 = seq![32u8] + nb;
        lemma_holds_split(s, a, head3, seq![61u8, q]);
        lemma_holds_split(s, a, seq![32u8], nb);
        let j = a + 1;
        let e = j + nb.len();
        let cp = e + 2 + vb.len();
        lemma_holds_index(s, a, seq![32u8], 0);
        lemma_holds_index(s, e, seq![61u8, q], 0);
        lemma_holds_index(s, e, seq![61u8, q], 1);
        lemma_holds_index(s, cp, seq![q], 0);
        assert(s[a] == 32);
        assert(s[e] == 61);
        assert(s[e + 1] == q);
        assert(s[cp] == q);
        assert forall|x: int| j <= x < e implies s[x] != EQUAL by {
            lemma_holds_index(s, j, nb, x - j);
        }
        assert forall|x: int| e + 2 <= x < cp implies s[x] != q by {
            lemma_holds_index(s, e + 2, vb, x - (e + 2));
        }
        if nb.len() > 0 {
            lemma_holds_index(s, j, nb, 0);
        }
        assert(!is_blank(s[j]) && s[j] != SLASH && s[j] != GREATER_THAN);
        assert(skip_blanks(s, j) == j);
        assert(skip_blanks(s, a) == j);
        lemma_find_byte_is(s, j, EQUAL, e);
        lemma_find_byte_is(s, e + 2, q, cp);
        lemma_text_of(s, j, e, name);
        lemma_text_of(s, e + 2, cp, value);
        let t1 = t.append_attribute(c, name, value);
        assert(add_attribute(t, Some(c), name, value) == t1);
        assert(parse_attribute(s, a, t, Some(c)) == parse_attribute(s, cp + 1, t1, Some(c)));
        assert(cp + 1 == a + ab.len());
        lemma_parse_attributes(s, cp + 1, t1, c, attributes, k + 1);
    } else {
        assert(skip_blanks(s, a) == a);
    }
}

/// Reading the closing tag of an element whose tag starts at `h`.
proof fn lemma_parse_closing(s: Seq<u8>, h: int, t: TreeModel, c: int, name: Seq<char>)
    requires
        plain_name(name),
        holds_at(s, h, seq![60u8, 47u8] + bytes(name) + seq![62u8]),
        tag_or_end(s, h + 3 + bytes(name).len()),
    ensures
        parse_tag(s, h, t, Some(c)) == parse_tag(
            s,
            h + 3 + bytes(name).len(),
            t,
            t.parent(c),
        ),
{
    let nb = bytes(name);
    let z = h + 3 + nb.len();
    lemma_holds_split(s, h, seq![60u8, 47u8] + nb, seq![62u8]);
    lemma_holds_split(s, h, seq![60u8, 47u8], nb);
    lemma_holds_index(s, h, seq![60u8, 47u8], 1);
    lemma_holds_index(s, h + 2 + nb.len(), seq![62u8], 0);
    assert(s[h + 1] == SLASH);
    assert(s[z - 1] == GREATER_THAN);
    assert forall|x: int| h + 2 <= x < z - 1 implies s[x] != GREATER_THAN by {
        lemma_holds_index(s, h + 2, nb, x - (h + 2));
        assert(!ends_name(nb[x - (h + 2)]));
    }
    lemma_find_byte_is(s, h + 2, GREATER_THAN, z - 1);
    assert(skip_blanks(s, z) == z);
    assert(parse_tag_close(s, h + 2, t, Some(c)) == parse_tag(s, z, t, close_element(t, Some(c))));
}

/// What `printable_all` says of each node of the chain.
proof fn lemma_printable_all(es: Seq<Element>, k: int)
    requires
        0 <= k <= es.len(),
        printable_all(es, k),
    ensures
        forall|j: int|
            k <= j < es.len() ==> printable(#[trigger] es[j]) && (j > 0 ==> es[j].kind
                == NodeType::Element),
    decreases es.len() - k,
{
    if k < es.len() {
        lemma_printable_all(es, k + 1);
    }
}

/// Reading the elements of a chain from position `k` on, up to the closing
/// tag of the node `c` that holds them.
proof fn lemma_parse_children(s: Seq<u8>, pos: int, t: TreeModel, c: int, es: Seq<Element>, k: int)
    requires
        t.wf(),
        t.has_node(c),
        k < es.len() ==> t.nodes[c].name.len() > 0,
        0 <= k <= es.len(),
        printable_all(es, k),
        forall|j: int| k <= j < es.len() ==> (#[trigger] es[j]).kind == NodeType::Element,
        holds_at(s, pos, bytes(render_all(es, k))),
        pos + bytes(render_all(es, k)).len() < s.len(),
        s[pos + bytes(render_all(es, k)).len()] == LESS_THAN,
    ensures
        parse_tag(s, pos, t, Some(c)) == parse_tag(
            s,
            pos + bytes(render_all(es, k)).len(),
            add_children(t, c, es, k),
            Some(c),
        ),
    decreases es, es.len() - k, 0int,
{
    lemma_all_bytes(es, k);
    if k < es.len() {
        let m = bytes(render(es[k]));
        let rest = bytes(render_all(es, k + 1));
        lemma_holds_split(s, pos, m, rest);
        lemma_all_bytes(es, k + 1);
        if k + 1 < es.len() {
            lemma_element_starts(es[k + 1]);
            lemma_holds_index(s, pos + m.len(), rest, 0);
        }
        assert(es[k].kind == NodeType::Element);
        lemma_parse_element(s, pos, t, c, es[k]);
        let t1 = add_node(t, c, es[k]);
        lemma_add_node(t, c, es[k]);
        lemma_parse_children(s, pos + m.len(), t1, c, es, k + 1);
    }
}

/// Reading one element, from the `<` of its opening tag to the end of its
/// closing tag.
proof fn lemma_parse_element(s: Seq<u8>, i: int, t: TreeModel, p: int, e: Element)
    requires
        t.wf(),
        t.has_node(p),
        t.nodes[p].name.len() > 0,
        printable(e),
        e.kind == NodeType::Element,
        holds_at(s, i, bytes(render(e))),
        tag_or_end(s, i + bytes(render(e)).len()),
    ensures
        parse_tag(s, i, t, Some(p)) == parse_tag(
            s,
            i + bytes(render(e)).len(),
            add_element(t, p, e),
            Some(p),
        ),
    decreases e, 0int, 2int,
{
    let nb = bytes(e.name);
    let body = body_bytes(e);
    let x = t.nodes.len() as int;
    let t1 = t.append_child(p, e.name, NodeType::Element);
    lemma_element_bytes(e);
    lemma_parse_opening(s, i, e);
    let a = i + 1 + nb.len();
    assert(parse_tag(s, i, t, Some(p)) == parse_attribute(s, a, t1, Some(x))) by {
        assert(open_element(t, Some(p), e.name) == (t1, Some(x)));
    }
    t.lemma_insert_child(p, t.children(p).len() as int, e.name, NodeType::Element);
    lemma_holds_split(s, i, seq![60u8] + nb, body);
    lemma_parse_body(s, a, t1, x, e);
}

/// Reading the name of an opening tag whose `<` stands at `i`.
proof fn lemma_parse_opening(s: Seq<u8>, i: int, e: Element)
    requires
        e.kind == NodeType::Element,
        plain_name(e.name),
        holds_at(s, i, bytes(render(e))),
    ensures
        0 <= i,
        i + 1 < s.len(),
        s[i] == LESS_THAN,
        s[i + 1] != SLASH,
        s[i + 1] != EXCLAMATION_MARK,
        s[i + 1] != QUESTION_MARK,
        find_name_end(s, i + 1) == i + 1 + bytes(e.name).len(),
        find_name_end(s, i + 1) < s.len(),
        text_of(s, i + 1, i + 1 + bytes(e.name).len()) == Some(e.name),
        forall|t: TreeModel, current: Option<int>|
            #[trigger] parse_tag(s, i, t, current) == parse_attribute(
                s,
                i + 1 + bytes(e.name).len(),
                open_element(t, current, e.name).0,
                open_element(t, current, e.name).1,
            ),
{
    let nb = bytes(e.name);
    let body = body_bytes(e);
    lemma_element_bytes(e);
    lemma_holds_split(s, i, seq![60u8] + nb, body);
    lemma_holds_split(s, i, seq![60u8], nb);
    lemma_holds_index(s, i, seq![60u8], 0);
    if nb.len() > 0 {
        lemma_holds_index(s, i + 1, nb, 0);
    }
    let a = i + 1 + nb.len();
    lemma_attributes_start(e.attributes, 0);
    let ab = bytes(render_attributes(e.attributes, 0));
    let tail = seq![62u8] + bytes(render_all(e.children, 0)) + seq![60u8, 47u8] + nb + seq![62u8];
    assert(body =~= ab + tail);
    assert(body.len() > 0);
    assert(body[0] == 32 || body[0] == 62) by {
        if ab.len() > 0 {
            assert(body[0] == ab[0]);
        } else {
            assert(body[0] == tail[0]);
        }
    }
    lemma_holds_index(s, a, body, 0);
    assert(ends_name(s[a]));
    assert forall|x: int| i + 1 <= x < a implies !ends_name(s[x]) by {
        lemma_holds_index(s, i + 1, nb, x - (i + 1));
        assert(!ends_name(nb[x - (i + 1)]));
    }
    lemma_find_name_end_is(s, i + 1, a);
    lemma_text_of(s, i + 1, a, e.name);
    assert forall|t: TreeModel, current: Option<int>|
        #[trigger] parse_tag(s, i, t, current) == parse_attribute(
            s,
            a,
            open_element(t, current, e.name).0,
            open_element(t, current, e.name).1,
        ) by {
        assert(parse_tag(s, i, t, current) == parse_tag_open(s, i + 1, t, current));
    }
}

/// Reading what follows the name in the tags of an element: the attributes,
/// the children and the closing tag.
proof fn lemma_parse_body(s: Seq<u8>, a: int, t: TreeModel, c: int, e: Element)
    requires
        t.wf(),
        t.has_node(c),
        printable(e),
        e.kind == NodeType::Element,
        t.nodes[c].name == e.name,
        t.nodes[c].value.len() == 0,
        t.nodes[c].kind == NodeType::Element,
        t.children(c).len() == 0,
        t.attributes(c).len() == 0,
        holds_at(s, a, body_bytes(e)),
        tag_or_end(s, a + body_bytes(e).len()),
    ensures
        parse_attribute(s, a, t, Some(c)) == parse_tag(
            s,
            a + body_bytes(e).len(),
            fill(t, c, e),
            t.nodes[c].parent,
        ),
    decreases e, 0int, 1int,
{
    let nb = bytes(e.name);
    let ab = bytes(render_attributes(e.attributes, 0));
    let kids = bytes(render_all(e.children, 0));
    let closing = seq![60u8, 47u8] + nb + seq![62u8];
    let body = body_bytes(e);
    assert(body =~= ab + (seq![62u8] + (kids + closing)));
    lemma_holds_split(s, a, ab, seq![62u8] + (kids + closing));
    let g = a + ab.len();
    lemma_holds_split(s, g, seq![62u8], kids + closing);
    lemma_holds_index(s, g, seq![62u8], 0);
    lemma_holds_split(s, g + 1, kids, closing);
    let h = g + 1 + kids.len();
    lemma_holds_index(s, h, closing, 0);
    assert(s[h] == LESS_THAN);

    // the attributes
    let t2 = add_attributes(t, c, e.attributes, 0);
    lemma_parse_attributes(s, a, t, c, e.attributes, 0);
    lemma_add_attributes(t, c, e.attributes, 0);

    // the text, if the first child is one, and the elements after it
    let t3 = add_children(t2, c, e.children, 0);
    lemma_printable_all(e.children, 0);
    lemma_all_bytes(e.children, 0);
    if e.children.len() > 0 && e.children[0].kind == NodeType::PcData {
        let text = e.children[0].value;
        let tb = bytes(text);
        let more = bytes(render_all(e.children, 1));
        assert(render(e.children[0]) == text);
        assert(plain_text(text));
        lemma_holds_split(s, g + 1, tb, more);
        let k = g + 1 + tb.len();
        lemma_holds_index(s, g + 1, tb, 0);
        assert(!is_blank(s[g + 1]));
        assert(skip_blanks(s, g + 1) == g + 1);
        assert forall|x: int| g + 1 <= x < k implies s[x] != LESS_THAN by {
            lemma_holds_index(s, g + 1, tb, x - (g + 1));
        }
        lemma_all_bytes(e.children, 1);
        if e.children.len() > 1 {
            lemma_element_starts(e.children[1]);
            lemma_holds_index(s, k, more, 0);
        }
        assert(s[k] == LESS_THAN);
        lemma_find_byte_is(s, g + 1, LESS_THAN, k);
        lemma_text_of(s, g + 1, k, text);
        let t2b = add_text(t2, c, text);
        assert(parse_content(s, g, t2, Some(c)) == parse_tag(s, k, t2b, Some(c)));
        assert(add_node(t2, c, e.children[0]) == t2b);
        lemma_add_node(t2, c, e.children[0]);
        lemma_parse_children(s, k, t2b, c, e.children, 1);
        assert(parse_content(s, g, t2, Some(c)) == parse_tag(s, h, t3, Some(c)));
    } else {
        if e.children.len() > 0 {
            lemma_element_starts(e.children[0]);
            lemma_holds_index(s, g + 1, kids, 0);
        }
        assert(s[g + 1] == LESS_THAN);
        assert(skip_blanks(s, g + 1) == g + 1);
        lemma_find_byte_is(s, g + 1, LESS_THAN, g + 1);
        assert(parse_content(s, g, t2, Some(c)) == parse_tag(s, g + 1, t2, Some(c)));
        lemma_parse_children(s, g + 1, t2, c, e.children, 0);
        assert(parse_content(s, g, t2, Some(c)) == parse_tag(s, h, t3, Some(c)));
    }

    // the closing tag
    lemma_fill(t, c, e);
    assert(h + 3 + nb.len() == a + body.len());
    lemma_parse_closing(s, h, t3, c, e.name);
}

/// Writing a tree and parsing the text again gives the same tree.
///
/// For every printable document `e`, the bytes of its text parse, and what
/// hangs below the root of the tree that they parse to is `e` again: the
/// same names, attributes, texts and children in the same order. So writing
/// that tree gives the same text once more.
pub proof fn lemma_round_trip(e: Element)
    requires
        printable_document(e),
    ensures
        parse_spec(bytes(render(e))) == Some(document_tree(e)),
        document_tree(e).wf(),
        document_tree(e).subtree(0) == e,
        render(document_tree(e).subtree(0)) == render(e),
{
    let s = bytes(render(e));
    let nb = bytes(e.name);
    let body = body_bytes(e);
    let t0 = blank_tree();
    let t1 = t0.with_name(0, e.name);
    lemma_element_bytes(e);
    assert(s.subrange(0, s.len() as int) =~= s);
    assert(holds_at(s, 0, s));
    lemma_parse_opening(s, 0, e);
    lemma_find_byte_is(s, 0, LESS_THAN, 0);
    let a: int = 1int + nb.len();
    assert(open_element(t0, Some(0), e.name) == (t1, Some(0int)));
    assert(parse_start(s, 0, t0, Some(0)) == parse_attribute(s, a, t1, Some(0)));
    assert(t0.children(0).no_duplicates());
    assert(t0.attributes(0).no_duplicates());
    assert(t0.wf());
    t0.lemma_with_fields_wf(0, e.name, Seq::empty(), NodeType::Element);
    lemma_holds_split(s, 0, seq![60u8] + nb, body);
    lemma_parse_body(s, a, t1, 0, e);
    let r = fill(t1, 0, e);
    lemma_fill(t1, 0, e);
    assert(parse_tag(s, s.len() as int, r, None) == Some(r));
    lemma_document_tree(e);
}

/// The same law for a tree in a table: where what hangs below its root is a
/// printable document, the bytes of its text parse to a well-formed tree
/// below whose root hangs the same document.
pub proof fn lemma_round_trip_tree(t: TreeModel)
    requires
        t.wf(),
        printable_document(t.subtree(0)),
    ensures
        parse_spec(bytes(render(t.subtree(0)))) matches Some(u) && u.wf() && u.subtree(0)
            == t.subtree(0),
{
    lemma_round_trip(t.subtree(0));
}

} // verus!
