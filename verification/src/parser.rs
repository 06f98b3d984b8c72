//! The parser: one pass over the bytes of a document, building its tree.
//!
//! The scanner is a small state machine. What it computes is stated by the
//! `parse_*` specification functions, one for each state, each of which says
//! how the rest of the input is read from that state on.

use vstd::prelude::*;
use vstd::slice::{slice_subrange, slice_to_vec};
use vstd::string::*;
use vstd::utf8::{decode_utf8, encode_utf8, encode_utf8_decode_utf8, valid_utf8};
use crate::chartype::{
    find_byte, find_name_end, lemma_find_byte, lemma_find_name_end, lemma_skip_blanks, scan_char,
    scan_name_end, skip_blank, skip_blanks, EQUAL, EXCLAMATION_MARK, GREATER_THAN, LESS_THAN,
    QUESTION_MARK, SLASH,
};
use crate::model::TreeModel;
use crate::node::{link, Node, NodeType};

verus! {

/// A parsed document: the handle that owns the root node and its tree.
pub struct Document {
    root: Node,
}

/// The parser as a value. It holds no state: each call of `parse` reads its
/// input from the start.
pub struct Parser {}

/// Why a document could not be parsed. There is one reason only: the input is
/// not a document that this parser reads, and no position is reported.
#[derive(Debug)]
pub enum ParseXmlError {
    InvalidXml,
}

/// The states of the scanner.
#[derive(Clone, Copy)]
enum State {
    Start,
    ReadTag,
    ReadTagOpen,
    ReadTagClose,
    ReadAttribute,
    ReadContent,
    End,
}

impl View for Document {
    type V = TreeModel;

    closed spec fn view(&self) -> TreeModel {
        self.root@
    }
}

impl Document {
    /// The document's invariant: that of its tree.
    pub closed spec fn wf(&self) -> bool {
        self.root.wf()
    }

    /// The root node, for reading.
    pub fn root(&self) -> (r: &Node)
        requires
            self.wf(),
        ensures
            r.wf(),
            r@ == self@,
    {
        &self.root
    }

    /// The root node, for changing the tree in place.
    pub fn root_mut(&mut self) -> (r: &mut Node)
        requires
            old(self).wf(),
        ensures
            r.wf(),
            r@ == old(self)@,
            final(r).wf() ==> final(self).wf(),
            final(self)@ == final(r)@,
    {
        &mut self.root
    }
}

/// The tree that the scanner starts from: one element without a name.
pub open spec fn blank_tree() -> TreeModel {
    TreeModel::single(Seq::<char>::empty(), NodeType::Element)
}

/// The text that the bytes from `from` up to `to` spell, if they are UTF-8.
pub open spec fn text_of(s: Seq<u8>, from: int, to: int) -> Option<Seq<char>> {
    if valid_utf8(s.subrange(from, to)) {
        Some(decode_utf8(s.subrange(from, to)))
    } else {
        None
    }
}

/// An opening tag of the given name: a current node that has no name yet
/// takes the name; otherwise a new element becomes the last child of the
/// current node, and the current node from then on. Without a current node
/// the tag is passed over.
pub open spec fn open_element(t: TreeModel, current: Option<int>, name: Seq<char>) -> (
    TreeModel,
    Option<int>,
) {
    match current {
        Some(p) => if t.nodes[p].name.len() == 0 {
            (t.with_name(p, name), Some(p))
        } else {
            (t.append_child(p, name, NodeType::Element), Some(t.nodes.len() as int))
        },
        None => (t, None),
    }
}

/// The end of an element: its parent becomes the current node.
pub open spec fn close_element(t: TreeModel, current: Option<int>) -> Option<int> {
    match current {
        Some(p) => t.parent(p),
        None => None,
    }
}

/// An attribute read inside a tag: it becomes the last attribute of the
/// current node, if there is one.
pub open spec fn add_attribute(
    t: TreeModel,
    current: Option<int>,
    name: Seq<char>,
    value: Seq<char>,
) -> TreeModel {
    match current {
        Some(p) => t.append_attribute(p, name, value),
        None => t,
    }
}

/// A run of text: it becomes the value of a new text node, the last child of
/// the current node.
pub open spec fn add_text(t: TreeModel, p: int, text: Seq<char>) -> TreeModel {
    t.append_child(p, Seq::empty(), NodeType::PcData).with_value(t.nodes.len() as int, text)
}

/// Reading from the start of the input: everything before the first `<` is
/// passed over, and an input without one is no document.
pub open spec fn parse_start(s: Seq<u8>, i: int, t: TreeModel, current: Option<int>) -> Option<
    TreeModel,
> {
    if 0 <= i <= s.len() {
        let k = find_byte(s, i, LESS_THAN);
        if k >= s.len() {
            None
        } else {
            parse_tag(s, k, t, current)
        }
    } else {
        None
    }
}

/// Reading a tag whose `<` stands at `i` (the byte at `i` is passed over
/// unread). The input may end here, and only here: then the tree is done. A
/// `/` starts a closing tag; after `!` or `?` the whole tag is passed over,
/// up to the next `<`; anything else starts an opening tag.
pub open spec fn parse_tag(s: Seq<u8>, i: int, t: TreeModel, current: Option<int>) -> Option<
    TreeModel,
>
    decreases s.len() - i, 0int,
{
    let j = i + 1;
    if i < 0 || j >= s.len() {
        Some(t)
    } else if s[j] == SLASH {
        parse_tag_close(s, j + 1, t, current)
    } else if s[j] == EXCLAMATION_MARK || s[j] == QUESTION_MARK {
        let k = find_byte(s, j, LESS_THAN);
        proof {
            lemma_find_byte(s, j, LESS_THAN);
        }
        if k >= s.len() {
            None
        } else {
            parse_tag(s, k, t, current)
        }
    } else {
        parse_tag_open(s, j, t, current)
    }
}

/// Reading the name of an opening tag from `i`: it runs up to the first white
/// space or `>`, which must come, and must be UTF-8.
pub open spec fn parse_tag_open(s: Seq<u8>, i: int, t: TreeModel, current: Option<int>) -> Option<
    TreeModel,
>
    decreases s.len() - i, 3int,
{
    if 0 <= i <= s.len() {
        let e = find_name_end(s, i);
        proof {
            lemma_find_name_end(s, i);
        }
        if e >= s.len() {
            None
        } else {
            match text_of(s, i, e) {
                Some(name) => {
                    let (t2, current2) = open_element(t, current, name);
                    parse_attribute(s, e, t2, current2)
                },
                None => None,
            }
        }
    } else {
        None
    }
}

/// Reading the rest of a closing tag from `i`: up to its `>`, which must
/// come. The element ends, and the white space after the tag is passed over.
pub open spec fn parse_tag_close(s: Seq<u8>, i: int, t: TreeModel, current: Option<int>) -> Option<
    TreeModel,
>
    decreases s.len() - i, 0int,
{
    if 0 <= i <= s.len() {
        let k = find_byte(s, i, GREATER_THAN);
        proof {
            lemma_find_byte(s, i, GREATER_THAN);
        }
        if k >= s.len() {
            None
        } else {
            proof {
                lemma_skip_blanks(s, k + 1);
            }
            parse_tag(s, skip_blanks(s, k + 1), t, close_element(t, current))
        }
    } else {
        None
    }
}

/// Reading inside an opening tag from `i`, after white space: `/` ends the
/// element at once, `>` ends the tag, and anything else starts an attribute:
/// a name up to `=`, then one byte that opens the value, the value up to the
/// next such byte. The input must not end inside the tag.
pub open spec fn parse_attribute(s: Seq<u8>, i: int, t: TreeModel, current: Option<int>) -> Option<
    TreeModel,
>
    decreases s.len() - i, 2int,
{
    if 0 <= i <= s.len() {
        let j = skip_blanks(s, i);
        proof {
            lemma_skip_blanks(s, i);
        }
        if j >= s.len() {
            None
        } else if s[j] == SLASH {
            parse_content(s, j + 1, t, close_element(t, current))
        } else if s[j] == GREATER_THAN {
            parse_content(s, j, t, current)
        } else {
            let e = find_byte(s, j, EQUAL);
            proof {
                lemma_find_byte(s, j, EQUAL);
            }
            if e + 1 >= s.len() {
                None
            } else {
                let c = find_byte(s, e + 2, s[e + 1]);
                proof {
                    lemma_find_byte(s, e + 2, s[e + 1]);
                }
                if c >= s.len() {
                    None
                } else {
                    match (text_of(s, j, e), text_of(s, e + 2, c)) {
                        (Some(name), Some(value)) => parse_attribute(
                            s,
                            c + 1,
                            add_attribute(t, current, name, value),
                            current,
                        ),
                        _ => None,
                    }
                }
            }
        }
    } else {
        None
    }
}

/// Reading content after the byte at `i` (which is passed over unread): white
/// space is passed over, and what stands before the next `<`, if anything,
/// is a run of text for the current node. Both the byte after the white
/// space and the `<` must come; the text must be UTF-8.
pub open spec fn parse_content(s: Seq<u8>, i: int, t: TreeModel, current: Option<int>) -> Option<
    TreeModel,
>
    decreases s.len() - i, 1int,
{
    if 0 <= i < s.len() {
        let j = skip_blanks(s, i + 1);
        proof {
            lemma_skip_blanks(s, i + 1);
        }
        if j >= s.len() {
            None
        } else {
            let k = find_byte(s, j, LESS_THAN);
            proof {
                lemma_find_byte(s, j, LESS_THAN);
            }
            if k >= s.len() {
                None
            } else if k > j && current is Some {
                match text_of(s, j, k) {
                    Some(text) => parse_tag(s, k, add_text(t, current.unwrap(), text), current),
                    None => None,
                }
            } else {
                parse_tag(s, k, t, current)
            }
        }
    } else {
        None
    }
}

/// The tree that the bytes `s` spell, or `None` where they spell none: where
/// the input ends anywhere but at a tag's start, where a scanned name, value
/// or text is not UTF-8, or where the root has no name in the end.
pub open spec fn parse_spec(s: Seq<u8>) -> Option<TreeModel> {
    match parse_start(s, 0, blank_tree(), Some(0)) {
        Some(t) => if t.nodes[0].name.len() > 0 {
            Some(t)
        } else {
            None
        },
        None => None,
    }
}

/// Where the scanner goes on from a state: the reading that the state stands
/// for, and the finished tree at the end.
spec fn resume(s: Seq<u8>, state: State, i: int, t: TreeModel, current: Option<int>) -> Option<
    TreeModel,
> {
    match state {
        State::Start => parse_start(s, i, t, current),
        State::ReadTag => parse_tag(s, i, t, current),
        State::ReadTagOpen => parse_tag_open(s, i, t, current),
        State::ReadTagClose => parse_tag_close(s, i, t, current),
        State::ReadAttribute => parse_attribute(s, i, t, current),
        State::ReadContent => parse_content(s, i, t, current),
        State::End => Some(t),
    }
}

/// Orders the states that may follow one another without a byte being read.
spec fn rank(state: State) -> int {
    match state {
        State::Start => 5,
        State::ReadTagOpen => 4,
        State::ReadAttribute => 3,
        State::ReadContent => 2,
        State::ReadTag => 1,
        State::ReadTagClose => 1,
        State::End => 0,
    }
}

/// `String::from_utf8` of the standard library: the string whose UTF-8
/// encoding the bytes are, where they are well-formed UTF-8, and `None` where
/// they are not.
#[verifier::external_body]
fn string_from_utf8(bytes: Vec<u8>) -> (r: Option<String>)
    ensures
        r is Some <==> valid_utf8(bytes@),
        r matches Some(text) ==> encode_utf8(text@) == bytes@,
{
    match String::from_utf8(bytes) {
        Ok(text) => Some(text),
        Err(_) => None,
    }
}

/// The text that the bytes from `from` up to `to` spell, if they are UTF-8.
fn decode_range(contents: &[u8], from: usize, to: usize) -> (r: Option<String>)
    requires
        from <= to <= contents@.len(),
    ensures
        match r {
            Some(text) => text_of(contents@, from as int, to as int) == Some(text@),
            None => text_of(contents@, from as int, to as int) is None,
        },
{
    let r = string_from_utf8(slice_to_vec(slice_subrange(contents, from, to)));
    proof {
        if r is Some {
            encode_utf8_decode_utf8(r->0@);
        }
    }
    r
}

/// Parses a document from bytes.
///
/// Returns the document whose tree `parse_spec` gives for these bytes, and
/// `InvalidXml` exactly where it gives none: on input that ends inside a tag
/// or before a root element was seen, on a name, value or text that is not
/// UTF-8, and on a root that has no name in the end. Nothing of a tree that
/// was begun is returned with an error.
pub fn parse(contents: &[u8]) -> (r: Result<Document, ParseXmlError>)
    ensures
        match r {
            Ok(doc) => doc.wf() && parse_spec(contents@) == Some(doc@),
            Err(e) => parse_spec(contents@) is None,
        },
{
    let mut root = Node::new_by_type(NodeType::Element);
    let mut current: Option<usize> = Some(0);
    let mut state = State::Start;
    let mut i: usize = 0;
    let size: usize = contents.len();
    let ghost goal = parse_start(contents@, 0, blank_tree(), Some(0));
    loop
        invariant
            root.wf(),
            size == contents@.len(),
            i <= size,
            current matches Some(c) ==> c < root@.nodes.len(),
            resume(contents@, state, i as int, root@, link(current)) == goal,
            goal == parse_start(contents@, 0, blank_tree(), Some(0)),
        ensures
            goal == Some(root@),
        decreases size - i, rank(state),
    {
        match state {
            State::Start => {
                match scan_char(contents, i, LESS_THAN) {
                    Some(k) => {
                        i = k;
                        state = State::ReadTag;
                    },
                    None => {
                        return Err(ParseXmlError::InvalidXml);
                    },
                }
            },
            State::ReadTag => {
                if i >= size || i + 1 >= size {
                    state = State::End;
                } else {
                    let j: usize = i + 1;
                    let b: u8 = contents[j];
                    if b == SLASH {
                        i = j + 1;
                        state = State::ReadTagClose;
                    } else if b == EXCLAMATION_MARK || b == QUESTION_MARK {
                        match scan_char(contents, j, LESS_THAN) {
                            Some(k) => {
                                i = k;
                                state = State::ReadTag;
                            },
                            None => {
                                return Err(ParseXmlError::InvalidXml);
                            },
                        }
                    } else {
                        i = j;
                        state = State::ReadTagOpen;
                    }
                }
            },
            State::ReadTagOpen => {
                let start: usize = i;
                match scan_name_end(contents, i) {
                    Some(e) => {
                        proof {
                            lemma_find_name_end(contents@, start as int);
                        }
                        match decode_range(contents, start, e) {
                            Some(tag_name) => {
                                match current {
                                    Some(p) => {
                                        if root.name_at(p).is_empty() {
                                            root.set_name_at(p, tag_name);
                                        } else {
                                            let c = root.append_child_at(
                                                p,
                                                tag_name,
                                                NodeType::Element,
                                            );
                                            current = Some(c);
                                        }
                                    },
                                    None => {},
                                }
                                i = e;
                                state = State::ReadAttribute;
                            },
                            None => {
                                return Err(ParseXmlError::InvalidXml);
                            },
                        }
                    },
                    None => {
                        return Err(ParseXmlError::InvalidXml);
                    },
                }
            },
            State::ReadTagClose => {
                match scan_char(contents, i, GREATER_THAN) {
                    Some(k) => {
                        current =
                        match current {
                            Some(p) => root.parent_at(p),
                            None => None,
                        };
                        i = skip_blank(contents, k + 1);
                        state = State::ReadTag;
                    },
                    None => {
                        return Err(ParseXmlError::InvalidXml);
                    },
                }
            },
            State::ReadAttribute => {
                let j: usize = skip_blank(contents, i);
                if j >= size {
                    return Err(ParseXmlError::InvalidXml);
                }
                let b: u8 = contents[j];
                if b == SLASH {
                    current =
                    match current {
                        Some(p) => root.parent_at(p),
                        None => None,
                    };
                    i = j + 1;
                    state = State::ReadContent;
                } else if b == GREATER_THAN {
                    i = j;
                    state = State::ReadContent;
                } else {
                    let e: usize = match scan_char(contents, j, EQUAL) {
                        Some(e) => e,
                        None => {
                            return Err(ParseXmlError::InvalidXml);
                        },
                    };
                    if e + 1 >= size {
                        return Err(ParseXmlError::InvalidXml);
                    }
                    let quote: u8 = contents[e + 1];
                    let value_start: usize = e + 2;
                    let c: usize = match scan_char(contents, value_start, quote) {
                        Some(c) => c,
                        None => {
                            return Err(ParseXmlError::InvalidXml);
                        },
                    };
                    proof {
                        lemma_find_byte(contents@, j as int, EQUAL);
                        lemma_find_byte(contents@, value_start as int, quote);
                    }
                    let name = match decode_range(contents, j, e) {
                        Some(name) => name,
                        None => {
                            return Err(ParseXmlError::InvalidXml);
                        },
                    };
                    let value = match decode_range(contents, value_start, c) {
                        Some(value) => value,
                        None => {
                            return Err(ParseXmlError::InvalidXml);
                        },
                    };
                    match current {
                        Some(p) => {
                            root.append_attribute_at(p, name, value);
                        },
                        None => {},
                    }
                    i = c + 1;
                    state = State::ReadAttribute;
                }
            },
            State::ReadContent => {
                if i >= size {
                    return Err(ParseXmlError::InvalidXml);
                }
                let j: usize = skip_blank(contents, i + 1);
                if j >= size {
                    return Err(ParseXmlError::InvalidXml);
                }
                let k: usize = match scan_char(contents, j, LESS_THAN) {
                    Some(k) => k,
                    None => {
                        return Err(ParseXmlError::InvalidXml);
                    },
                };
                proof {
                    lemma_find_byte(contents@, j as int, LESS_THAN);
                }
                if k > j {
                    match current {
                        Some(p) => {
                            match decode_range(contents, j, k) {
                                Some(text) => {
                                    let c = root.append_child_at(
                                        p,
                                        String::new(),
                                        NodeType::PcData,
                                    );
                                    root.set_value_at(c, text);
                                },
                                None => {
                                    return Err(ParseXmlError::InvalidXml);
                                },
                            }
                        },
                        None => {},
                    }
                }
                i = k;
                state = State::ReadTag;
            },
            State::End => {
                break ;
            },
        }
    }
    if root.name_at(0).is_empty() {
        Err(ParseXmlError::InvalidXml)
    } else {
        Ok(Document { root })
    }
}

/// Parses a document from text: from the bytes of its UTF-8 encoding.
pub fn parse_str(contents: &str) -> (r: Result<Document, ParseXmlError>)
    ensures
        match r {
            Ok(doc) => doc.wf() && parse_spec(encode_utf8(contents@)) == Some(doc@),
            Err(e) => parse_spec(encode_utf8(contents@)) is None,
        },
{
    parse(contents.as_bytes())
}

/// Parses a document from a string: from the bytes of its UTF-8 encoding.
pub fn parse_string(contents: &String) -> (r: Result<Document, ParseXmlError>)
    ensures
        match r {
            Ok(doc) => doc.wf() && parse_spec(encode_utf8(contents@)) == Some(doc@),
            Err(e) => parse_spec(encode_utf8(contents@)) is None,
        },
{
    parse(contents.as_str().as_bytes())
}

impl Parser {
    /// A parser.
    pub fn new() -> (r: Parser) {
        Parser {  }
    }

    /// Parses a document from bytes, as the function `parse` does.
    pub fn parse(&self, contents: &[u8]) -> (r: Result<Document, ParseXmlError>)
        ensures
            match r {
                Ok(doc) => doc.wf() && parse_spec(contents@) == Some(doc@),
                Err(e) => parse_spec(contents@) is None,
            },
    {
        parse(contents)
    }
}

} // verus!
