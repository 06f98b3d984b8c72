use dummy_xml::node::{Node, NodeType};
use dummy_xml::parser;
use dummy_xml::writer;

#[test]
fn write_test() {
    let result = parser::parse_str("<parent><child1 name='go'></child1></parent>");
    let mut txt = String::new();
    writer::write(result.unwrap().root(), &mut txt);
    assert_eq!(txt, "<parent><child1 name='go'></child1></parent>");
}

#[test]
fn writer_test_sample() {
    let mut root = Node::new("parent");
    root.append_child("child1")
        .append_attribute("gender", "male");
    root.append_child("child2")
        .append_attribute("gender", "female");
    root.append_child("child3")
        .append_attribute("gender", "non-gender");
    let mut result = String::new();
    writer::write(&root, &mut result);
    println!("{}", result);
    assert_eq!(
        result,
        "<parent><child1 gender='male'></child1><child2 gender='female'></child2><child3 gender='non-gender'></child3></parent>"
    );
}

#[test]
fn quotes_are_chosen_by_the_value() {
    let mut root = Node::new("a");
    root.append_attribute("plain", "x y");
    root.append_attribute("single", "it's");
    root.append_attribute("double", "say \"hi\"");
    root.append_attribute("empty", "");
    let mut out = String::new();
    writer::write(&root, &mut out);
    assert_eq!(
        out,
        "<a plain='x y' single=\"it's\" double='say \"hi\"' empty=''></a>"
    );
}

#[test]
fn write_appends_to_what_is_there() {
    let mut root = Node::new("a");
    root.append_child_by_type(NodeType::PcData).set_value("text");
    root.append_child("b");
    let mut out = String::from("before:");
    writer::write(&root, &mut out);
    assert_eq!(out, "before:<a>text<b></b></a>");
    let mut part = String::new();
    writer::write_at(&root, 2, &mut part);
    assert_eq!(part, "<b></b>");
}

#[test]
fn every_kind_has_its_form() {
    let mut root = Node::new("r");
    root.append_child_by_type(NodeType::Declaration)
        .append_attribute("version", "1.0");
    root.append_child_by_type(NodeType::Doctype).set_name("r");
    root.append_child_by_type(NodeType::Comment).set_value(" c ");
    root.append_child_by_type(NodeType::CData).set_value("a<b");
    root.append_child_by_type(NodeType::ProcessingInstruction)
        .set_name("pi");
    root.append_child_by_type(NodeType::PcData).set_value("t");
    let mut out = String::new();
    writer::write(&root, &mut out);
    assert_eq!(
        out,
        "<r><?xml version='1.0'?><!DOCTYPE r><!-- c --><![CDATA[a<b]]><?pi?>t</r>"
    );
}

fn shape(node: dummy_xml::node::NodeRef, out: &mut Vec<String>) {
    let mut line = format!("{:?}|{}|{}", node.node_type(), node.name(), node.value());
    let mut attr = node.first_attribute();
    while let Some(a) = attr {
        line.push_str(&format!("|{}={}", a.name(), a.value()));
        attr = a.next_attribute();
    }
    out.push(line);
    out.push(String::from("("));
    let mut child = node.first_child();
    while let Some(c) = child {
        shape(c, out);
        child = c.next_sibling();
    }
    out.push(String::from(")"));
}

#[test]
fn written_trees_parse_back() {
    let mut root = Node::new("note");
    root.append_attribute("id", "1");
    root.append_attribute("title", "it's");
    {
        let mut to = root.append_child("to");
        to.append_child_by_type(NodeType::PcData).set_value("Tove");
    }
    {
        let mut from = root.append_child("from");
        from.append_attribute("value", "Jani");
        from.append_child_by_type(NodeType::PcData).set_value("Jani & co");
        from.append_child("inner").append_attribute("k", "say \"v\"");
    }
    root.append_child("empty");
    {
        let mut body = root.append_child("body");
        body.append_child_by_type(NodeType::PcData)
            .set_value("Don't forget me this weekend!");
    }
    let mut text = String::new();
    writer::write(&root, &mut text);
    assert_eq!(
        text,
        "<note id='1' title=\"it's\"><to>Tove</to><from value='Jani'>Jani & co<inner k='say \"v\"'></inner></from><empty></empty><body>Don't forget me this weekend!</body></note>"
    );
    let doc = parser::parse_str(&text).unwrap();
    let mut first = Vec::new();
    shape(root.as_ref(), &mut first);
    let mut second = Vec::new();
    shape(doc.root().as_ref(), &mut second);
    assert_eq!(first, second);
    let mut again = String::new();
    writer::write(doc.root(), &mut again);
    assert_eq!(again, text);
}

#[test]
fn write_from_goes_on_with_the_siblings() {
    let mut root = Node::new("r");
    root.append_child("a").append_child("a1");
    root.append_child("b");
    root.append_child("c").append_attribute("k", "v");
    let mut all = String::new();
    writer::write_from(root.as_ref(), &mut all);
    assert_eq!(all, "<r><a><a1></a1></a><b></b><c k='v'></c></r>");
    let mut from_a = String::new();
    writer::write_from(root.first_child().unwrap(), &mut from_a);
    assert_eq!(from_a, "<a><a1></a1></a><b></b><c k='v'></c>");
    let mut from_b = String::from(">");
    writer::write_from(root.first_child().unwrap().next_sibling().unwrap(), &mut from_b);
    assert_eq!(from_b, "><b></b><c k='v'></c>");
    let mut from_c = String::new();
    writer::write_from(root.last_child().unwrap(), &mut from_c);
    assert_eq!(from_c, "<c k='v'></c>");
}

#[test]
fn unnamed_leaf_elements_parse_back() {
    let mut root = Node::new("r");
    {
        let mut blank = root.append_child("");
        blank.append_attribute("a", "1");
        blank.append_child_by_type(NodeType::PcData).set_value("t");
    }
    root.append_child("z");
    let mut text = String::new();
    writer::write(&root, &mut text);
    assert_eq!(text, "<r>< a='1'>t</><z></z></r>");
    let doc = parser::parse_str(&text).unwrap();
    let mut first = Vec::new();
    shape(root.as_ref(), &mut first);
    let mut second = Vec::new();
    shape(doc.root().as_ref(), &mut second);
    assert_eq!(first, second);
}

#[test]
fn what_is_not_printable_does_not_parse_back() {
    let mut late_text = Node::new("a");
    late_text.append_child("b");
    late_text.append_child_by_type(NodeType::PcData).set_value("text");
    let mut text = String::new();
    writer::write(&late_text, &mut text);
    assert_eq!(text, "<a><b></b>text</a>");
    match parser::parse_str(&text) {
        Ok(doc) => {
            let mut first = Vec::new();
            shape(late_text.as_ref(), &mut first);
            let mut second = Vec::new();
            shape(doc.root().as_ref(), &mut second);
            assert_ne!(first, second);
        }
        Err(_) => {}
    }

    let mut both_quotes = Node::new("a");
    both_quotes.append_attribute("k", "it's \"so\"");
    let mut text = String::new();
    writer::write(&both_quotes, &mut text);
    assert_eq!(text, "<a k=\"it's \"so\"\"></a>");
    match parser::parse_str(&text) {
        Ok(doc) => assert_ne!(doc.root().attribute("k"), Some("it's \"so\"")),
        Err(_) => {}
    }
}
