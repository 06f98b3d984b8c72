//! The writer: turns a tree back into markup text.

use vstd::prelude::*;
use vstd::string::*;
use crate::model::{Element, TreeModel};
use crate::handle::NodeRef;
use crate::node::{link, Node, NodeType};

verus! {

/// The text of one attribute: a space, the name, `=`, and the value between
/// single quotes, or between double quotes where the value itself holds a
/// single quote.
pub open spec fn render_attribute(name: Seq<char>, value: Seq<char>) -> Seq<char> {
    if value.contains('\'') {
        " "@ + name + "=\""@ + value + "\""@
    } else {
        " "@ + name + "='"@ + value + "'"@
    }
}

/// The quote that stands around a value: double where the value holds a
/// single quote, single otherwise.
pub open spec fn quote_for(value: Seq<char>) -> char {
    if value.contains('\'') {
        '"'
    } else {
        '\''
    }
}

/// How an attribute is quoted: its text is a space, the name, `=`, a quote,
/// the value and the same quote again, and the quote is double where the
/// value holds a single quote, and single where it holds none.
pub proof fn lemma_attribute_quoting(name: Seq<char>, value: Seq<char>)
    ensures
        render_attribute(name, value) == seq![' '] + name + seq!['=', quote_for(value)] + value
            + seq![quote_for(value)],
        value.contains('\'') ==> quote_for(value) == '"',
        !value.contains('\'') ==> quote_for(value) == '\'',
{
    reveal_strlit(" ");
    reveal_strlit("=\"");
    reveal_strlit("\"");
    reveal_strlit("='");
    reveal_strlit("'");
    assert(" "@ =~= seq![' ']);
    if value.contains('\'') {
        assert("=\""@ =~= seq!['=', '"']);
        assert("\""@ =~= seq!['"']);
    } else {
        assert("='"@ =~= seq!['=', '\'']);
        assert("'"@ =~= seq!['\'']);
    }
}

/// The text of the attributes of a chain from position `k` on, one after the
/// other.
pub open spec fn render_attributes(attributes: Seq<(Seq<char>, Seq<char>)>, k: int) -> Seq<char>
    decreases attributes.len() - k,
{
    if 0 <= k < attributes.len() {
        render_attribute(attributes[k].0, attributes[k].1) + render_attributes(attributes, k + 1)
    } else {
        Seq::empty()
    }
}

/// The text of a node with everything below it.
///
/// An element is its opening tag with its attributes, then its children in
/// order, then its closing tag; an element without children still has both
/// tags. Text is its value and nothing else. A character-data section and a
/// comment hold their value between their marks; a processing instruction
/// and a document type hold their name; a declaration holds its attributes.
pub open spec fn render(e: Element) -> Seq<char>
    decreases e, 0int,
{
    match e.kind {
        NodeType::Element => "<"@ + e.name + render_attributes(e.attributes, 0) + ">"@ + render_all(
            e.children,
            0,
        ) + "</"@ + e.name + ">"@,
        NodeType::PcData => e.value,
        NodeType::CData => "<![CDATA["@ + e.value + "]]>"@,
        NodeType::Comment => "<!--"@ + e.value + "-->"@,
        NodeType::ProcessingInstruction => "<?"@ + e.name + "?>"@,
        NodeType::Declaration => "<?xml"@ + render_attributes(e.attributes, 0) + "?>"@,
        NodeType::Doctype => "<!DOCTYPE "@ + e.name + ">"@,
    }
}

/// The text of the nodes of `es` from position `k` on, one after the other.
pub open spec fn render_all(es: Seq<Element>, k: int) -> Seq<char>
    decreases es, es.len() - k,
{
    if 0 <= k < es.len() {
        render(es[k]) + render_all(es, k + 1)
    } else {
        Seq::empty()
    }
}

/// Whether the text holds a single quote.
fn holds_single_quote(text: &str) -> (r: bool)
    ensures
        r == text@.contains('\''),
{
    let mut found = false;
    for c in it: text.chars()
        invariant
            it.seq() == text@,
            found == exists|j: int| 0 <= j < it.index() && text@[j] == '\'',
    {
        if c == '\'' {
            found = true;
        }
    }
    found
}

/// Writes attribute `a` of the tree: a space, its name, `=` and its value
/// between quotes. The quotes are double where the value holds a single
/// quote, and single otherwise.
fn write_attribute(tree: &Node, a: usize, des: &mut String)
    requires
        tree.wf(),
        a < tree@.attrs.len(),
    ensures
        final(des)@ == old(des)@ + render_attribute(
            tree@.attrs[a as int].name,
            tree@.attrs[a as int].value,
        ),
{
    let name = tree.attribute_name_at(a);
    let value = tree.attribute_value_at(a);
    let ghost start = des@;
    if holds_single_quote(value) {
        des.append(" ");
        des.append(name);
        des.append("=\"");
        des.append(value);
        des.append("\"");
        assert(des@ =~= start + (" "@ + name@ + "=\""@ + value@ + "\""@));
    } else {
        des.append(" ");
        des.append(name);
        des.append("='");
        des.append(value);
        des.append("'");
        assert(des@ =~= start + (" "@ + name@ + "='"@ + value@ + "'"@));
    }
}

/// Writes the attributes of node `i`, first to last.
fn write_attributes(tree: &Node, i: usize, des: &mut String)
    requires
        tree.wf(),
        i < tree@.nodes.len(),
    ensures
        final(des)@ == old(des)@ + render_attributes(tree@.attribute_pairs(i as int), 0),
{
    let ghost start = des@;
    let ghost pairs = tree@.attribute_pairs(i as int);
    let ghost chain = tree@.attributes(i as int);
    let mut next = tree.first_attribute_at(i);
    let ghost mut k: int = 0;
    while next.is_some()
        invariant
            tree.wf(),
            i < tree@.nodes.len(),
            pairs == tree@.attribute_pairs(i as int),
            chain == tree@.attributes(i as int),
            0 <= k <= chain.len(),
            link(next) == (if k < chain.len() {
                Some(chain[k])
            } else {
                None
            }),
            des@ + render_attributes(pairs, k) == start + render_attributes(pairs, 0),
        decreases chain.len() - k,
    {
        let a = next.unwrap();
        let ghost before = des@;
        proof {
            tree@.lemma_attribute_position(i as int, k);
        }
        write_attribute(tree, a, des);
        next = tree.next_attribute_at(a);
        proof {
            assert(des@ + render_attributes(pairs, k + 1) =~= before + render_attributes(pairs, k));
            k = k + 1;
        }
    }
    assert(des@ =~= start + render_attributes(pairs, 0));
}

/// Writes node `i` of the tree with everything below it.
pub fn write_at(tree: &Node, i: usize, des: &mut String)
    requires
        tree.wf(),
        i < tree@.nodes.len(),
    ensures
        final(des)@ == old(des)@ + render(tree@.subtree(i as int)),
    decreases tree@.nodes.len() - i,
{
    let ghost start = des@;
    let ghost e = tree@.subtree(i as int);
    match tree.node_type_at(i) {
        NodeType::Element => {
            let name = tree.name_at(i);
            des.append("<");
            des.append(name);
            write_attributes(tree, i, des);
            des.append(">");
            let ghost opened = des@;
            let ghost chain = tree@.children(i as int);
            let mut next = tree.first_child_at(i);
            let ghost mut k: int = 0;
            proof {
                tree@.lemma_subtrees(i as int, 0);
            }
            while next.is_some()
                invariant
                    tree.wf(),
                    i < tree@.nodes.len(),
                    e == tree@.subtree(i as int),
                    chain == tree@.children(i as int),
                    e.children.len() == chain.len(),
                    forall|j: int|
                        0 <= j < chain.len() ==> #[trigger] e.children[j] == tree@.subtree(
                            chain[j],
                        ),
                    0 <= k <= chain.len(),
                    link(next) == (if k < chain.len() {
                        Some(chain[k])
                    } else {
                        None
                    }),
                    des@ + render_all(e.children, k) == opened + render_all(e.children, 0),
                decreases chain.len() - k,
            {
                let c = next.unwrap();
                let ghost before = des@;
                proof {
                    tree@.lemma_child_position(i as int, k);
                    assert(tree@.child_slot(i as int, k));
                }
                write_at(tree, c, des);
                next = tree.next_sibling_at(c);
                proof {
                    assert(des@ + render_all(e.children, k + 1) =~= before + render_all(
                        e.children,
                        k,
                    ));
                    k = k + 1;
                }
            }
            des.append("</");
            des.append(name);
            des.append(">");
            assert(des@ =~= start + render(e));
        },
        NodeType::PcData => {
            des.append(tree.value_at(i));
        },
        NodeType::CData => {
            des.append("<![CDATA[");
            des.append(tree.value_at(i));
            des.append("]]>");
            assert(des@ =~= start + render(e));
        },
        NodeType::Comment => {
            des.append("<!--");
            des.append(tree.value_at(i));
            des.append("-->");
            assert(des@ =~= start + render(e));
        },
        NodeType::ProcessingInstruction => {
            des.append("<?");
            des.append(tree.name_at(i));
            des.append("?>");
            assert(des@ =~= start + render(e));
        },
        NodeType::Declaration => {
            des.append("<?xml");
            write_attributes(tree, i, des);
            des.append("?>");
            assert(des@ =~= start + render(e));
        },
        NodeType::Doctype => {
            des.append("<!DOCTYPE ");
            des.append(tree.name_at(i));
            des.append(">");
            assert(des@ =~= start + render(e));
        },
    }
}

/// The text of node `i` and of the siblings that follow it, one after the
/// other.
pub open spec fn render_from(t: TreeModel, i: int) -> Seq<char> {
    match t.parent(i) {
        Some(p) => render_all(t.subtrees(p, 0), t.position(i)),
        None => render(t.subtree(i)),
    }
}

/// Writes a node with everything below it, and then, in the same way, each
/// of the siblings that follow it, at the end of `des`.
pub fn write_from(src: NodeRef<'_>, des: &mut String)
    requires
        src.wf(),
    ensures
        final(des)@ == old(des)@ + render_from(src.tree@, src.at as int),
{
    let tree = src.tree;
    let ghost start = des@;
    match tree.parent_at(src.at) {
        None => {
            write_at(tree, src.at, des);
        },
        Some(p) => {
            let ghost chain = tree@.children(p as int);
            let ghost es = tree@.subtrees(p as int, 0);
            let ghost first = tree@.position(src.at as int);
            let ghost mut k: int = first;
            let mut next = Some(src.at);
            proof {
                tree@.lemma_parent_position(src.at as int);
                tree@.lemma_subtrees(p as int, 0);
            }
            while next.is_some()
                invariant
                    tree.wf(),
                    p < tree@.nodes.len(),
                    chain == tree@.children(p as int),
                    es == tree@.subtrees(p as int, 0),
                    es.len() == chain.len(),
                    forall|j: int|
                        0 <= j < chain.len() ==> #[trigger] es[j] == tree@.subtree(chain[j]),
                    0 <= k <= chain.len(),
                    link(next) == (if k < chain.len() {
                        Some(chain[k])
                    } else {
                        None
                    }),
                    des@ + render_all(es, k) == start + render_all(es, first),
                decreases chain.len() - k,
            {
                let c = next.unwrap();
                let ghost before = des@;
                proof {
                    tree@.lemma_child_position(p as int, k);
                }
                write_at(tree, c, des);
                next = tree.next_sibling_at(c);
                proof {
                    assert(des@ + render_all(es, k + 1) =~= before + render_all(es, k));
                    k = k + 1;
                }
            }
            assert(des@ =~= start + render_all(es, first));
        },
    }
}

/// Writes a whole tree, from its root down, at the end of `des`.
pub fn write(src: &Node, des: &mut String)
    requires
        src.wf(),
    ensures
        final(des)@ == old(des)@ + render(src@.subtree(0)),
{
    write_at(src, 0, des);
}

} // verus!
