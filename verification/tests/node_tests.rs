use vdom::attribute::{checked, class, disabled, href, name, style, type_, value};
use vdom::attribute::{find_attribute, Attr, AttrKind, AttrValue};
use vdom::events::{ConcreteVListener, VListener};
use vdom::node::{count_within, Child, Node};

#[test]
fn new_node_is_empty() {
    let node = Node::new("div");
    assert_eq!(node.tag, "div");
    assert!(node.attributes.is_empty());
    assert!(node.children.is_empty());
    assert!(node.listeners.is_empty());
}

#[test]
fn wrap_in_keeps_the_order_of_the_elements() {
    let node = Node::wrap_in("ul", vec![Node::new("a"), Node::new("b"), Node::new("c")]);
    assert_eq!(node.tag, "ul");
    assert_eq!(node.children.len(), 3);
    assert_eq!(node.children[0], Child::Node(Node::new("a")));
    assert_eq!(node.children[1], Child::Node(Node::new("b")));
    assert_eq!(node.children[2], Child::Node(Node::new("c")));
}

#[test]
fn wrap_in_nothing_has_no_children() {
    let node = Node::wrap_in("ul", vec![]);
    assert!(node.children.is_empty());
}

#[test]
fn children_are_appended_in_order() {
    let mut node = Node::new("div");
    node.append_string("a".to_string());
    node.append_child(Node::new("p"));
    node.append_string("b".to_string());
    assert_eq!(node.children.len(), 3);
    assert_eq!(node.children[0], Child::Text("a".to_string()));
    assert_eq!(node.children[1], Child::Node(Node::new("p")));
    assert_eq!(node.children[2], Child::Text("b".to_string()));
}

#[test]
fn add_attribute_replaces_the_attribute_of_the_same_name() {
    let mut node = Node::new("div");
    node.add_attribute(Attr::property("a", AttrValue::Number(1)));
    node.add_attribute(Attr::property("b", AttrValue::Number(2)));
    node.add_attribute(Attr::attribute("a", AttrValue::Number(3)));
    assert_eq!(node.attributes.len(), 2);
    assert_eq!(node.attributes[0], Attr::attribute("a", AttrValue::Number(3)));
    assert_eq!(node.attributes[1], Attr::property("b", AttrValue::Number(2)));
}

#[test]
fn find_attribute_gives_the_first_position_of_the_name() {
    let attrs = vec![
        Attr::property("a", AttrValue::Null),
        Attr::property("b", AttrValue::Null),
    ];
    assert_eq!(find_attribute(&attrs, &"b".to_string()), Some(1));
    assert_eq!(find_attribute(&attrs, &"a".to_string()), Some(0));
    assert_eq!(find_attribute(&attrs, &"c".to_string()), None);
}

#[test]
fn listeners_are_kept_in_order() {
    let mut node = Node::new("button");
    node.add_event_listener(ConcreteVListener::new("click", 1));
    node.add_event_listener(ConcreteVListener::new("keydown", 2));
    assert_eq!(node.listeners.len(), 2);
    assert_eq!(node.listeners[0].key(), "click");
    assert_eq!(node.listeners[0].handler, 1);
    assert_eq!(node.listeners[1].key(), "keydown");
}

#[test]
fn equality_leaves_listeners_out() {
    let mut one = Node::new("button");
    one.add_event_listener(ConcreteVListener::new("click", 1));
    let two = Node::new("button");
    assert!(one == two);
}

#[test]
fn equality_compares_tags() {
    assert!(Node::new("a") != Node::new("b"));
}

#[test]
fn equality_compares_attributes_by_kind_name_and_value() {
    let mut one = Node::new("a");
    one.add_attribute(Attr::property("k", AttrValue::Number(1)));
    let mut other_value = Node::new("a");
    other_value.add_attribute(Attr::property("k", AttrValue::Number(2)));
    let mut other_kind = Node::new("a");
    other_kind.add_attribute(Attr::attribute("k", AttrValue::Number(1)));
    let mut other_name = Node::new("a");
    other_name.add_attribute(Attr::property("j", AttrValue::Number(1)));
    let mut same = Node::new("a");
    same.add_attribute(Attr::property("k", AttrValue::Number(1)));
    assert!(one != other_value);
    assert!(one != other_kind);
    assert!(one != other_name);
    assert!(one != Node::new("a"));
    assert!(Node::new("a") != one);
    assert!(one == same);
}

#[test]
fn equality_compares_children_pairwise() {
    let mut one = Node::new("div");
    one.append_string("a".to_string());
    one.append_child(Node::new("p"));
    let mut swapped = Node::new("div");
    swapped.append_child(Node::new("p"));
    swapped.append_string("a".to_string());
    let mut shorter = Node::new("div");
    shorter.append_string("a".to_string());
    assert!(one != swapped);
    assert!(one != shorter);
}

#[test]
fn a_text_and_an_element_are_never_equal() {
    assert!(Child::Text("p".to_string()) != Child::Node(Node::new("p")));
    assert!(Child::Node(Node::new("p")) != Child::Text("p".to_string()));
    assert!(Child::Text("p".to_string()) == Child::Text("p".to_string()));
    assert!(Child::Text("p".to_string()) != Child::Text("q".to_string()));
}

#[test]
fn attribute_values_compare_by_variant_and_payload() {
    assert!(AttrValue::Null.same(&AttrValue::Null));
    assert!(!AttrValue::Null.same(&AttrValue::Undefined));
    assert!(AttrValue::Bool(true).same(&AttrValue::Bool(true)));
    assert!(!AttrValue::Bool(true).same(&AttrValue::Bool(false)));
    assert!(!AttrValue::Number(1).same(&AttrValue::Real(1)));
    assert!(AttrValue::Real(9).same(&AttrValue::Real(9)));
    assert!(AttrValue::Text("a".to_string()).same(&AttrValue::Text("a".to_string())));
    assert!(!AttrValue::Text("a".to_string()).same(&AttrValue::Text("b".to_string())));
}

#[test]
fn attribute_constructors_set_the_kind() {
    let p = Attr::property("className", AttrValue::Null);
    let a = Attr::attribute("class", AttrValue::Null);
    assert_eq!(p.kind, AttrKind::Property);
    assert_eq!(p.key, "className");
    assert_eq!(a.kind, AttrKind::Attribute);
    assert_eq!(a.key, "class");
    assert!(p.same(&p.duplicate()));
    assert!(!p.same(&a));
}

#[test]
fn count_within_gives_what_is_left_of_the_budget() {
    let mut span = Node::new("span");
    span.append_string("x".to_string());
    let mut root = Node::new("div");
    root.append_child(span);
    root.append_string("y".to_string());
    // span, "x", "y": three nodes
    assert_eq!(count_within(&root.children[..], 10), Some(7));
    assert_eq!(count_within(&root.children[..], 3), Some(0));
    assert_eq!(count_within(&root.children[..], 2), None);
    assert_eq!(count_within(&[], 0), Some(0));
}

#[test]
fn small_snapshots_fit() {
    let mut root = Node::new("div");
    root.append_string("y".to_string());
    assert!(root.fits());
}

#[test]
fn attribute_factories_name_the_properties() {
    let v = || AttrValue::Text("x".to_string());
    assert_eq!(class(v()), Attr::property("className", v()));
    assert_eq!(style(v()), Attr::property("style", v()));
    assert_eq!(name(v()), Attr::property("name", v()));
    assert_eq!(type_(v()), Attr::property("type", v()));
    assert_eq!(value(v()), Attr::property("value", v()));
    assert_eq!(checked(AttrValue::Bool(true)), Attr::property("checked", AttrValue::Bool(true)));
    assert_eq!(disabled(AttrValue::Bool(false)), Attr::property("disabled", AttrValue::Bool(false)));
    assert_eq!(href(v()), Attr::property("href", v()));
}

#[test]
fn children_come_from_elements_and_texts() {
    assert_eq!(Child::from(Node::new("p")), Child::Node(Node::new("p")));
    assert_eq!(Child::from("t".to_string()), Child::Text("t".to_string()));
    let child: Child = Node::new("em").into();
    assert_eq!(child, Child::Node(Node::new("em")));
}
