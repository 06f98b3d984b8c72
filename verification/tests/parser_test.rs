use dummy_xml::chartype::{is_space, scan_char, scan_name_end, skip_blank, skip_spaces};
use dummy_xml::node::{Attribute, NodeType};
use dummy_xml::parser;

#[test]
fn parser_test_sample() {
    let result =
        dummy_xml::parser::parse_str("<parent><child1 name='go'/><child2 name='rust'/></parent>");
    match result {
        Ok(document) => {
            let root = document.root();
            println!("root is {}", root.name());
            println!(
                "child2's name is {:?}",
                root.last_child().and_then(|node| node.attribute("name"))
            );
            assert_eq!(
                root.last_child().and_then(|node| node.attribute("name")),
                Some("rust")
            );
            assert_eq!(root.name(), "parent");
            let child1 = root.first_child().unwrap();
            let child2 = root.last_child().unwrap();
            assert_eq!(child1.name(), "child1");
            assert_eq!(child2.name(), "child2");
            assert_eq!(child1.next_sibling().unwrap().name(), "child2");
            assert!(child2.next_sibling().is_none());
            let a1 = child1.first_attribute().unwrap();
            assert_eq!(a1.name(), "name");
            assert_eq!(a1.value(), "go");
            assert!(a1.next_attribute().is_none());
            let a2 = child2.first_attribute().unwrap();
            assert_eq!(a2.name(), "name");
            assert_eq!(a2.value(), "rust");
            assert!(a2.next_attribute().is_none());
            assert!(child1.first_child().is_none());
        }
        Err(error) => panic!("{:?}", error),
    }
}

#[test]
fn parse_blank() {
    let result = parser::parse_str("");
    assert!(result.is_err());
}

#[test]
fn parse_negative_1() {
    let result = parser::parse_str("<parent><child1 ");
    assert!(result.is_err());
}

#[test]
fn test_is_space() {
    assert_eq!(is_space('c' as u8), false);
    assert_eq!(is_space(' ' as u8), true);
    assert_eq!(is_space('\t' as u8), true);
    assert_eq!(is_space('\n' as u8), true);
    assert_eq!(is_space(0x0b), true);
    assert_eq!(is_space(0x0c), true);
    assert_eq!(is_space('\r' as u8), true);
}

const NOTE: &str = "<?xml version=\"1.0\" encoding=\"UTF-8\"?>\n<note id='1'>\n  <to>Tove</to>\n  <from value=\"Jani\">Jani</from>\n  <heading>Reminder</heading>\n  <body>Don't forget me this weekend!</body>\n</note>\n";

#[test]
fn parser_test_parse_note_xml() {
    let result = parser::parse(NOTE.as_bytes());
    assert_eq!(result.is_ok(), true);
    let doc = result.unwrap();

    let root = doc.root();
    assert_eq!(root.name(), "note");
    assert_eq!(
        root.first_attribute().unwrap().to_attribute(),
        Attribute::new("id", "1")
    );
    assert_eq!(root.parent().is_none(), true);

    let first = root.first_child().unwrap();
    assert_eq!(first.name(), "to");
    let to_txt = first.first_child().unwrap();
    assert_eq!(to_txt.name(), "");
    assert_eq!(to_txt.value(), "Tove");
    assert_eq!(*to_txt.node_type(), NodeType::PcData);

    let second = first.next_sibling().unwrap();
    assert_eq!(second.name(), "from");
    assert_eq!(
        second.first_attribute().unwrap().to_attribute(),
        Attribute::new("value", "Jani")
    );
    let from_txt = second.first_child().unwrap();
    assert_eq!(from_txt.name(), "");
    assert_eq!(from_txt.value(), "Jani");

    let fourth = root.last_child().unwrap();
    assert_eq!(fourth.name(), "body");
    let body_txt = fourth.first_child().unwrap();
    assert_eq!(body_txt.name(), "");
    assert_eq!(body_txt.value(), "Don't forget me this weekend!");

    let third = fourth.previous_sibling().unwrap();
    assert_eq!(third.name(), "heading");
    let heading_txt = third.first_child().unwrap();
    assert_eq!(heading_txt.name(), "");
    assert_eq!(heading_txt.value(), "Reminder");
    assert_eq!(third.previous_sibling().unwrap().name(), "from");
}

#[test]
fn parse_string_and_bytes_agree() {
    let text = String::from("<a x=\"1\" y='2'><b>t</b></a>");
    let doc = parser::parse_string(&text).unwrap();
    let root = doc.root();
    assert_eq!(root.name(), "a");
    let x = root.first_attribute().unwrap();
    assert_eq!((x.name(), x.value()), ("x", "1"));
    let y = x.next_attribute().unwrap();
    assert_eq!((y.name(), y.value()), ("y", "2"));
    assert_eq!(root.first_child().unwrap().first_child().unwrap().value(), "t");
    let doc2 = parser::parse(text.as_bytes()).unwrap();
    assert_eq!(doc2.root().name(), "a");
    assert_eq!(doc2.root().len(), doc.root().len());
}

#[test]
fn parse_rejects_what_is_no_document() {
    assert!(parser::parse_str("no markup at all").is_err());
    assert!(parser::parse_str("<").is_err());
    assert!(parser::parse_str("<a").is_err());
    assert!(parser::parse_str("<a>").is_err());
    assert!(parser::parse_str("<a>text").is_err());
    assert!(parser::parse_str("<a b").is_err());
    assert!(parser::parse_str("<a b=").is_err());
    assert!(parser::parse_str("<a b='c").is_err());
    assert!(parser::parse_str("<a></a").is_err());
    assert!(parser::parse_str("<a/>").is_err());
    assert!(parser::parse_str("<!-- only a comment -->").is_err());
    assert!(parser::parse(&[b'<', 0xff, b'>', b'<', b'/', 0xff, b'>']).is_err());
    assert!(parser::parse(&[b'<', b'a', b'>', 0xc3, b'<', b'/', b'a', b'>']).is_err());
    assert!(parser::parse(b"<a b='\xff'></a>").is_err());
}

#[test]
fn parse_accepts_the_smallest_documents() {
    let doc = parser::parse_str("<a></a>").unwrap();
    assert_eq!(doc.root().name(), "a");
    assert!(doc.root().first_child().is_none());
    assert_eq!(doc.root().len(), 1);

    let doc = parser::parse_str("  lead <a>hello<").unwrap();
    assert_eq!(doc.root().name(), "a");
    assert_eq!(doc.root().first_child().unwrap().value(), "hello");

    let doc = parser::parse_str("<?xml version='1.0'?><!-- c --><r>\n</r>\n").unwrap();
    assert_eq!(doc.root().name(), "r");
    assert!(doc.root().first_child().is_none());
}

#[test]
fn parse_keeps_utf8_text() {
    let doc = parser::parse_str("<données clé='välue'>grüße</données>").unwrap();
    let root = doc.root();
    assert_eq!(root.name(), "données");
    let attr = root.first_attribute().unwrap();
    assert_eq!(attr.name(), "clé");
    assert_eq!(attr.value(), "välue");
    assert_eq!(root.first_child().unwrap().value(), "grüße");
}

#[test]
fn root_mut_changes_the_document() {
    let mut doc = parser::parse_str("<a><b></b></a>").unwrap();
    doc.root_mut().append_child("c").set_value("v");
    doc.root_mut().set_name("top");
    let root = doc.root();
    assert_eq!(root.name(), "top");
    assert_eq!(root.last_child().unwrap().name(), "c");
    assert_eq!(root.last_child().unwrap().value(), "v");
    assert_eq!(root.first_child().unwrap().name(), "b");
}

#[test]
fn scanning_stops_where_it_should() {
    let text = b"ab \t\r\n<cd>e";
    assert_eq!(scan_char(text, 0, b'<'), Some(6));
    assert_eq!(scan_char(text, 7, b'<'), None);
    assert_eq!(scan_char(text, 11, b'e'), None);
    assert_eq!(scan_name_end(text, 0), Some(2));
    assert_eq!(scan_name_end(text, 7), Some(9));
    assert_eq!(scan_name_end(text, 10), None);
    assert_eq!(skip_blank(text, 2), 6);
    assert_eq!(skip_blank(text, 0), 0);
    assert_eq!(skip_blank(b" \x0b", 0), 1);
    assert_eq!(skip_blank(b"  ", 0), 2);
    let mut p = 2;
    skip_spaces(text, &mut p);
    assert_eq!(p, 6);
    let mut p = 0;
    skip_spaces(b" \x0b\x0c", &mut p);
    assert_eq!(p, 3);
    let mut p = 7;
    skip_spaces(b"  ", &mut p);
    assert_eq!(p, 7);
}

#[test]
fn parser_value_parses_like_the_function() {
    let parser = parser::Parser::new();
    let doc = parser.parse(NOTE.as_bytes()).unwrap();
    let root = doc.root();
    assert_eq!(root.name(), "note");
    assert_eq!(root.first_child().unwrap().name(), "to");
    assert_eq!(root.first_child().unwrap().first_child().unwrap().value(), "Tove");
    assert_eq!(root.last_child().unwrap().name(), "body");
    assert_eq!(
        root.last_child().unwrap().previous_sibling().unwrap().name(),
        "heading"
    );
    assert!(parser.parse(b"").is_err());
    assert!(parser.parse(b"<parent><child1 ").is_err());
}

#[test]
fn unsafe_parser_test_parse_note_xml() {
    let parser = parser::Parser::new();
    let result = parser.parse(NOTE.as_bytes());

    assert_eq!(result.is_ok(), true);
    let doc = result.unwrap();

    let root = doc.root();
    assert_eq!(root.name(), "note");

    let first = root.first_child().unwrap();
    assert_eq!(first.name(), "to");
    let to_txt = first.first_child().unwrap();
    assert_eq!(to_txt.name(), "");
    assert_eq!(to_txt.value(), "Tove");

    let second = first.next_sibling().unwrap();
    assert_eq!(second.name(), "from");
    let from_txt = second.first_child().unwrap();
    assert_eq!(from_txt.name(), "");
    assert_eq!(from_txt.value(), "Jani");

    let fourth = root.last_child().unwrap();
    assert_eq!(fourth.name(), "body");
    let body_txt = fourth.first_child().unwrap();
    assert_eq!(body_txt.name(), "");
    assert_eq!(body_txt.value(), "Don't forget me this weekend!");

    let third = fourth.previous_sibling().unwrap();
    assert_eq!(third.name(), "heading");
    let heading_txt = third.first_child().unwrap();
    assert_eq!(heading_txt.name(), "");
    assert_eq!(heading_txt.value(), "Reminder");
}
