use dummy_xml::attribute::same_text;
use dummy_xml::node::{Attribute, Node, NodeType};

#[test]
fn node_new_node_test() {
    let mut node = Node::new("mpd");
    assert_eq!(node.name(), "mpd");
    node.append_child("child1");
    node.append_child("child2");

    {
        let c1 = node.first_child().unwrap();
        assert_eq!(c1.name(), "child1");

        let c2 = c1.next_sibling().unwrap();
        assert_eq!(c2.name(), "child2");

        let node = c2.parent().unwrap();
        assert_eq!(node.name(), "mpd");
    }

    node.prepend_child("child0");

    {
        let c1 = node.first_child().unwrap();
        assert_eq!(c1.name(), "child0");
    }

    node.append_child_by_type(NodeType::PcData)
        .set_value("text1");

    {
        let txt = node.last_child().unwrap();
        assert_eq!(txt.value(), "text1");
    }
}

#[test]
fn node_function_chain_test() {
    let mut node = Node::new("mpd");
    assert_eq!(node.name(), "mpd");
    node.append_child("child1").set_value("value1");

    let c1 = node.first_child().unwrap();
    assert_eq!(c1.name(), "child1");
    assert_eq!(c1.value(), "value1");
}

#[test]
fn raw_node_new_node_test() {
    let mut node = Node::new(&"mpd".to_string());
    assert_eq!(node.name(), "mpd");
    node.append_child(&"child1".to_string());
    node.append_child(&"child2".to_string());

    {
        let c1 = node.first_child().unwrap();
        assert_eq!(c1.name(), "child1");

        let c2 = c1.next_sibling().unwrap();
        assert_eq!(c2.name(), "child2");

        let node = c2.parent().unwrap();
        assert_eq!(node.name(), "mpd");
    }

    node.prepend_child(&"child0".to_string());

    {
        let c1 = node.first_child().unwrap();
        assert_eq!(c1.name(), "child0");
    }

    node.append_child_by_type(NodeType::PcData)
        .set_value(&"text1".to_string());

    {
        let txt = node.last_child().unwrap();
        assert_eq!(txt.value(), "text1");
    }
}

#[test]
fn raw_node_function_chain_test() {
    let mut node = Node::new(&"mpd".to_string());
    assert_eq!(node.name(), "mpd");
    node.append_child(&"child1".to_string())
        .set_value(&"value1".to_string());

    let c1 = node.first_child().unwrap();
    assert_eq!(c1.name(), "child1");
    assert_eq!(c1.value(), "value1");
}

#[test]
fn new_attribute_test() {
    let mut attr = Attribute::new("class", "test");

    {
        assert_eq!(attr.name(), "class");
        assert_eq!(attr.value(), "test");

        attr.set_name("id");
        attr.set_value("main");
    }
    assert_eq!(attr.name(), "id");
    assert_eq!(attr.value(), "main");
}

#[test]
fn new_object_test() {
    let mut attr = Attribute::new(&"class".to_string(), &"test".to_string());

    {
        assert_eq!(attr.name(), "class");
        assert_eq!(attr.value(), "test");

        attr.set_name(&"id".to_string());
        attr.set_value(&"main".to_string());
    }

    {
        let attr2 = attr.clone();
        assert_eq!(attr, attr2);
    }
}

#[test]
fn new_nodes_are_detached() {
    let node = Node::new("solo");
    assert_eq!(node.name(), "solo");
    assert_eq!(node.value(), "");
    assert_eq!(*node.node_type(), NodeType::Element);
    assert!(node.parent().is_none());
    assert!(node.next_sibling().is_none());
    assert!(node.previous_sibling().is_none());
    assert!(node.first_child().is_none());
    assert!(node.last_child().is_none());
    assert!(node.first_attribute().is_none());
    assert!(node.last_attribute().is_none());

    let text = Node::new_by_type(NodeType::Comment);
    assert_eq!(text.name(), "");
    assert_eq!(text.value(), "");
    assert_eq!(*text.node_type(), NodeType::Comment);
    assert!(text.first_child().is_none());
}

#[test]
fn append_keeps_insertion_order() {
    let mut node = Node::new("list");
    let names = ["a", "b", "c", "d", "e"];
    for name in names.iter() {
        node.append_child(name);
    }
    let mut walked = Vec::new();
    let mut next = node.first_child();
    while let Some(child) = next {
        walked.push(child.name().to_string());
        next = child.next_sibling();
    }
    assert_eq!(walked, vec!["a", "b", "c", "d", "e"]);

    let mut back = Vec::new();
    let mut prev = node.last_child();
    while let Some(child) = prev {
        back.push(child.name().to_string());
        prev = child.previous_sibling();
    }
    assert_eq!(back, vec!["e", "d", "c", "b", "a"]);
}

#[test]
fn prepend_gives_reverse_insertion_order() {
    let mut node = Node::new("list");
    let names = ["a", "b", "c", "d"];
    for name in names.iter() {
        node.prepend_child(name);
    }
    let mut walked = Vec::new();
    let mut next = node.first_child();
    while let Some(child) = next {
        walked.push(child.name().to_string());
        next = child.next_sibling();
    }
    assert_eq!(walked, vec!["d", "c", "b", "a"]);
    assert_eq!(node.last_child().unwrap().name(), "a");
}

#[test]
fn prepend_by_type_comes_first() {
    let mut node = Node::new("p");
    node.append_child("b");
    node.prepend_child_by_type(NodeType::Comment).set_value("note");
    let first = node.first_child().unwrap();
    assert_eq!(*first.node_type(), NodeType::Comment);
    assert_eq!(first.value(), "note");
    assert_eq!(first.name(), "");
    assert_eq!(first.next_sibling().unwrap().name(), "b");
}

#[test]
fn parent_and_children_agree() {
    let mut node = Node::new("root");
    node.append_child("a").append_child("a1");
    node.append_child("b");
    let mut a = node.first_child_mut().unwrap();
    a.append_child("a2");
    a.prepend_child("a0");

    let root = node.as_ref();
    let mut count = 0;
    let mut index = 0;
    while let Some(n) = node.node(index) {
        if let Some(p) = n.parent() {
            let mut seen = 0;
            let mut before = None;
            let mut next = p.first_child();
            while let Some(c) = next {
                if c.index() == n.index() {
                    seen += 1;
                    assert_eq!(before, n.previous_sibling().map(|s| s.index()));
                    assert_eq!(
                        c.next_sibling().map(|s| s.index()),
                        n.next_sibling().map(|s| s.index())
                    );
                }
                before = Some(c.index());
                next = c.next_sibling();
            }
            assert_eq!(seen, 1);
        } else {
            assert_eq!(n.index(), root.index());
        }
        count += 1;
        index += 1;
    }
    assert_eq!(count, 6);

    let a = node.first_child().unwrap();
    let kids: Vec<String> = {
        let mut v = Vec::new();
        let mut next = a.first_child();
        while let Some(c) = next {
            v.push(c.name().to_string());
            next = c.next_sibling();
        }
        v
    };
    assert_eq!(kids, vec!["a0", "a1", "a2"]);
}

#[test]
fn insert_after_and_before_splice_in_place() {
    let mut node = Node::new("root");
    let a = node.append_child("a").index();
    let c = node.append_child("c").index();
    let b = node.insert_child_after("b", a).unwrap().index();
    node.insert_child_before("first", a).unwrap();
    node.insert_child_after("last", c).unwrap();
    node.insert_child_before("b2", c).unwrap();

    let mut walked = Vec::new();
    let mut next = node.first_child();
    while let Some(child) = next {
        walked.push(child.name().to_string());
        next = child.next_sibling();
    }
    assert_eq!(walked, vec!["first", "a", "b", "b2", "c", "last"]);
    assert_eq!(node.last_child().unwrap().name(), "last");
    assert_eq!(node.first_child().unwrap().name(), "first");
    assert_eq!(node.node(b).unwrap().previous_sibling().unwrap().name(), "a");
    assert_eq!(node.node(b).unwrap().parent().unwrap().index(), 0);
}

#[test]
fn insert_beside_a_stranger_changes_nothing() {
    let mut node = Node::new("root");
    let a = node.append_child("a").index();
    let grand = node.first_child_mut().unwrap().append_child("grand").index();
    assert!(node.insert_child_after("x", grand).is_none());
    assert!(node.insert_child_before("x", grand).is_none());
    assert!(node.insert_child_after("x", 0).is_none());
    assert!(node.insert_child_before("x", 99).is_none());
    assert!(node.node(3).is_none());
    assert_eq!(node.first_child().unwrap().index(), a);
    assert!(node.first_child().unwrap().next_sibling().is_none());
    let mut a_mut = node.first_child_mut().unwrap();
    assert!(a_mut.insert_child_after("y", grand).is_some());
    assert_eq!(node.node(grand).unwrap().next_sibling().unwrap().name(), "y");
}

#[test]
fn attributes_form_a_chain() {
    let mut node = Node::new("root");
    node.append_attribute("b", "2");
    node.append_attribute("c", "3").set_value("three");
    node.prepend_attribute("a", "1");

    let first = node.first_attribute().unwrap();
    assert_eq!(first.name(), "a");
    assert_eq!(first.value(), "1");
    assert!(first.previous_attribute().is_none());
    let second = first.next_attribute().unwrap();
    assert_eq!(second.name(), "b");
    assert_eq!(second.previous_attribute().unwrap().name(), "a");
    let third = second.next_attribute().unwrap();
    assert_eq!(third.name(), "c");
    assert_eq!(third.value(), "three");
    assert!(third.next_attribute().is_none());
    assert_eq!(node.last_attribute().unwrap().index(), third.index());
    assert_eq!(third.to_attribute(), Attribute::new("c", "three"));

    node.first_attribute_mut().unwrap().set_name("alpha");
    assert_eq!(node.first_attribute().unwrap().name(), "alpha");
    let mut last = node.last_attribute_mut().unwrap();
    last.previous_attribute_mut().unwrap().set_value("two");
    assert_eq!(node.first_attribute().unwrap().next_attribute().unwrap().value(), "two");
}

#[test]
fn setters_change_in_place() {
    let mut node = Node::new("root");
    node.set_name("top").set_value("v").set_node_type(NodeType::Doctype);
    assert_eq!(node.name(), "top");
    assert_eq!(node.value(), "v");
    assert_eq!(*node.node_type(), NodeType::Doctype);
    let mut child = node.append_child("c");
    child.set_name("kid").set_node_type(NodeType::CData).set_value("data");
    assert_eq!(child.name(), "kid");
    assert_eq!(child.as_ref().parent().unwrap().name(), "top");
    let kid = node.last_child().unwrap();
    assert_eq!(kid.name(), "kid");
    assert_eq!(kid.value(), "data");
    assert_eq!(*kid.node_type(), NodeType::CData);
}

#[test]
fn mutable_navigation_reaches_the_same_nodes() {
    let mut node = Node::new("root");
    node.append_child("a");
    node.append_child("b").append_child("b1");
    assert!(node.parent_mut().is_none());
    assert!(node.next_sibling_mut().is_none());
    assert!(node.previous_sibling_mut().is_none());
    let mut a = node.first_child_mut().unwrap();
    let mut b = a.next_sibling_mut().unwrap();
    b.set_value("bee");
    let mut b1 = b.last_child_mut().unwrap();
    b1.parent_mut().unwrap().previous_sibling_mut().unwrap().set_value("ay");
    assert_eq!(node.first_child().unwrap().value(), "ay");
    assert_eq!(node.last_child().unwrap().value(), "bee");
    node.as_mut().set_value("r");
    node.node_mut(3).unwrap().set_value("leaf");
    assert_eq!(node.value(), "r");
    assert_eq!(node.last_child().unwrap().first_child().unwrap().value(), "leaf");
}

#[test]
fn attribute_is_found_by_name() {
    let mut node = Node::new("root");
    node.append_attribute("a", "1");
    node.append_attribute("b", "2");
    node.append_attribute("a", "3");
    node.append_child("kid").append_attribute("b", "4");
    assert_eq!(node.attribute("a"), Some("1"));
    assert_eq!(node.attribute("b"), Some("2"));
    assert_eq!(node.attribute("c"), None);
    assert_eq!(node.attribute(""), None);
    let kid = node.first_child().unwrap();
    assert_eq!(kid.attribute("b"), Some("4"));
    assert_eq!(kid.attribute("a"), None);
}

#[test]
fn attributes_compare_by_name_and_value() {
    let a = Attribute::new("k", "v");
    assert_eq!(a, Attribute::new("k", "v"));
    assert_ne!(a, Attribute::new("k", "w"));
    assert_ne!(a, Attribute::new("j", "v"));
    assert_ne!(a, Attribute::new("k", ""));
    let b = a.clone();
    assert_eq!(b.name(), "k");
    assert_eq!(b.value(), "v");
    assert!(same_text("grüße", "grüße"));
    assert!(!same_text("grüße", "grusse"));
    assert!(!same_text("ab", "abc"));
    assert!(same_text("", ""));
}
