use vdom::attribute::{Attr, AttrKind, AttrValue, Attribute};
use vdom::dom::{Dom, DomError};
use vdom::dom_iterator::DomIterator;
use vdom::events::{ConcreteVListener, VListener};
use vdom::node::Node;
use vdom::root::create_element;

// div > [p, span > [text]]
fn small_tree() -> (Dom, usize, usize, usize, usize) {
    let mut dom = Dom::new();
    let div = dom.create_element("div");
    let p = dom.create_element("p");
    let span = dom.create_element("span");
    let text = dom.create_text_node("hello");
    assert_eq!(dom.append_child(div, p), Ok(()));
    assert_eq!(dom.append_child(div, span), Ok(()));
    assert_eq!(dom.append_child(span, text), Ok(()));
    (dom, div, p, span, text)
}

fn walk(dom: &Dom, root: usize) -> Vec<usize> {
    let mut walker = DomIterator::new(root);
    let mut seen = Vec::new();
    while let Some(node) = walker.next(dom) {
        seen.push(node);
    }
    assert_eq!(walker.next(dom), None);
    seen
}

#[test]
fn walker_visits_in_pre_order() {
    let (dom, div, p, span, text) = small_tree();
    assert_eq!(walk(&dom, div), vec![div, p, span, text]);
}

#[test]
fn walker_stays_below_its_root() {
    let (dom, _div, p, span, text) = small_tree();
    assert_eq!(walk(&dom, span), vec![span, text]);
    assert_eq!(walk(&dom, p), vec![p]);
    assert_eq!(walk(&dom, text), vec![text]);
}

#[test]
fn walker_climbs_over_several_levels() {
    // a > [b > [c > [d]], e]
    let mut dom = Dom::new();
    let a = dom.create_element("a");
    let b = dom.create_element("b");
    let c = dom.create_element("c");
    let d = dom.create_text_node("d");
    let e = dom.create_element("e");
    assert_eq!(dom.append_child(a, b), Ok(()));
    assert_eq!(dom.append_child(b, c), Ok(()));
    assert_eq!(dom.append_child(c, d), Ok(()));
    assert_eq!(dom.append_child(a, e), Ok(()));
    assert_eq!(walk(&dom, a), vec![a, b, c, d, e]);
    assert_eq!(walk(&dom, b), vec![b, c, d]);
}

#[test]
fn walker_matches_the_addresses_of_a_made_tree() {
    let mut span = Node::new("span");
    span.append_string("text".to_string());
    let mut vnode = Node::new("div");
    vnode.append_child(Node::new("p"));
    vnode.append_child(span);
    let mut dom = Dom::new();
    let root = create_element(&mut dom, &vnode);
    let seen = walk(&dom, root);
    assert_eq!(seen.len(), 4);
    assert_eq!(dom.tag(seen[0]), Some("div".to_string()));
    assert_eq!(dom.tag(seen[1]), Some("p".to_string()));
    assert_eq!(dom.tag(seen[2]), Some("span".to_string()));
    assert_eq!(dom.text(seen[3]), Some("text".to_string()));
}

#[test]
fn a_copy_is_the_same_tree_and_its_own() {
    let (mut dom, div, p, span, text) = small_tree();
    let attr = Attr::property("k", AttrValue::Number(1));
    assert_eq!(attr.set(&mut dom, div), Ok(()));
    let mut copy = dom.duplicate();
    assert_eq!(copy.len(), dom.len());
    assert_eq!(copy.child_nodes(div), vec![p, span]);
    assert_eq!(copy.parent_node(text), Some(span));
    assert_eq!(copy.text(text), Some("hello".to_string()));
    assert_eq!(copy.tag(span), Some("span".to_string()));
    assert_eq!(
        copy.attribute(div, AttrKind::Property, &"k".to_string()),
        Some(AttrValue::Number(1))
    );
    assert_eq!(copy.set_text_content(text, "bye"), Ok(()));
    assert_eq!(dom.text(text), Some("hello".to_string()));
}

#[test]
fn navigation_follows_the_links() {
    let (dom, div, p, span, text) = small_tree();
    assert_eq!(dom.first_child(div), Some(p));
    assert_eq!(dom.last_child(div), Some(span));
    assert_eq!(dom.next_sibling(p), Some(span));
    assert_eq!(dom.next_sibling(span), None);
    assert_eq!(dom.next_sibling(div), None);
    assert_eq!(dom.parent_node(text), Some(span));
    assert_eq!(dom.parent_node(div), None);
    assert_eq!(dom.first_child(p), None);
    assert_eq!(dom.first_child(text), None);
    assert_eq!(dom.child_nodes(div), vec![p, span]);
    assert_eq!(dom.child_count(div), 2);
    assert_eq!(dom.child_count(99), 0);
    assert_eq!(dom.parent_node(99), None);
    assert_eq!(dom.len(), 4);
    assert!(dom.is_text(text));
    assert!(!dom.is_text(div));
    assert!(!dom.is_text(99));
    assert_eq!(dom.tag(text), None);
    assert_eq!(dom.text(div), None);
}

#[test]
fn insert_child_puts_the_node_before_the_position() {
    let (mut dom, div, p, span, _text) = small_tree();
    let first = dom.create_element("first");
    let middle = dom.create_element("middle");
    let last = dom.create_element("last");
    assert_eq!(dom.insert_child(div, 0, first), Ok(()));
    assert_eq!(dom.insert_child(div, 2, middle), Ok(()));
    assert_eq!(dom.insert_child(div, 100, last), Ok(()));
    assert_eq!(dom.child_nodes(div), vec![first, p, middle, span, last]);
    assert_eq!(dom.parent_node(middle), Some(div));
}

#[test]
fn attaching_is_refused_for_what_cannot_be_adopted() {
    let (mut dom, div, p, span, text) = small_tree();
    let fresh = dom.create_element("i");
    assert_eq!(dom.append_child(99, fresh), Err(DomError::NoSuchNode));
    assert_eq!(dom.append_child(div, 99), Err(DomError::NoSuchNode));
    assert_eq!(dom.append_child(text, fresh), Err(DomError::NotAnElement));
    // has a parent already
    assert_eq!(dom.append_child(div, text), Err(DomError::NotAdoptable));
    // made before the element that is to hold it
    assert_eq!(dom.remove_child(div, p), Ok(()));
    assert_eq!(dom.append_child(span, p), Err(DomError::NotAdoptable));
    // itself
    assert_eq!(dom.append_child(fresh, fresh), Err(DomError::NotAdoptable));
    assert_eq!(dom.child_nodes(div), vec![span]);
    assert_eq!(dom.child_nodes(span), vec![text]);
}

#[test]
fn remove_child_detaches_and_keeps_the_node() {
    let (mut dom, div, p, span, text) = small_tree();
    assert_eq!(dom.remove_child(div, span), Ok(()));
    assert_eq!(dom.child_nodes(div), vec![p]);
    assert_eq!(dom.parent_node(span), None);
    assert_eq!(dom.child_nodes(span), vec![text]);
    assert_eq!(dom.remove_child(div, span), Err(DomError::NotAChild));
    assert_eq!(dom.remove_child(div, text), Err(DomError::NotAChild));
    assert_eq!(dom.remove_child(div, 99), Err(DomError::NoSuchNode));
    assert_eq!(dom.remove_child(99, p), Err(DomError::NoSuchNode));
}

#[test]
fn replace_child_keeps_the_position() {
    let (mut dom, div, p, span, _text) = small_tree();
    let fresh = dom.create_element("h1");
    assert_eq!(dom.replace_child(div, fresh, p), Ok(()));
    assert_eq!(dom.child_nodes(div), vec![fresh, span]);
    assert_eq!(dom.parent_node(p), None);
    assert_eq!(dom.parent_node(fresh), Some(div));
    let other = dom.create_element("h2");
    assert_eq!(dom.replace_child(div, other, p), Err(DomError::NotAChild));
    assert_eq!(dom.replace_child(div, fresh, span), Err(DomError::NotAdoptable));
    assert_eq!(dom.replace_child(div, 99, span), Err(DomError::NoSuchNode));
}

#[test]
fn set_text_content_of_a_text_node_replaces_the_text() {
    let (mut dom, _div, _p, _span, text) = small_tree();
    let before = dom.len();
    assert_eq!(dom.set_text_content(text, "bye"), Ok(()));
    assert_eq!(dom.text(text), Some("bye".to_string()));
    assert_eq!(dom.len(), before);
}

#[test]
fn set_text_content_of_an_element_replaces_its_children() {
    let (mut dom, div, p, span, _text) = small_tree();
    assert_eq!(dom.set_text_content(div, "plain"), Ok(()));
    let kids = dom.child_nodes(div);
    assert_eq!(kids.len(), 1);
    assert_eq!(dom.text(kids[0]), Some("plain".to_string()));
    assert_eq!(dom.parent_node(p), None);
    assert_eq!(dom.parent_node(span), None);
    assert_eq!(dom.tag(div), Some("div".to_string()));
}

#[test]
fn set_text_content_with_an_empty_text_leaves_an_element_empty() {
    let (mut dom, div, _p, _span, _text) = small_tree();
    let before = dom.len();
    assert_eq!(dom.set_text_content(div, ""), Ok(()));
    assert_eq!(dom.child_count(div), 0);
    assert_eq!(dom.len(), before);
    assert_eq!(dom.set_text_content(99, "x"), Err(DomError::NoSuchNode));
}

#[test]
fn attributes_are_stored_by_kind_and_name() {
    let (mut dom, div, _p, _span, text) = small_tree();
    let key = "value".to_string();
    assert_eq!(dom.attribute(div, AttrKind::Property, &key), None);
    let one = Attr::property("value", AttrValue::Number(1));
    let two = Attr::attribute("value", AttrValue::Text("two".to_string()));
    assert_eq!(one.set(&mut dom, div), Ok(()));
    assert_eq!(Attr::set(&two, &mut dom, div), Ok(()));
    assert_eq!(
        dom.attribute(div, AttrKind::Property, &key),
        Some(AttrValue::Number(1))
    );
    assert_eq!(
        dom.attribute(div, AttrKind::Attribute, &key),
        Some(AttrValue::Text("two".to_string()))
    );
    let three = Attr::property("value", AttrValue::Bool(false));
    assert_eq!(Attr::set(&three, &mut dom, div), Ok(()));
    assert_eq!(
        dom.attribute(div, AttrKind::Property, &key),
        Some(AttrValue::Bool(false))
    );
    assert_eq!(three.remove(&mut dom, div), Ok(()));
    assert_eq!(dom.attribute(div, AttrKind::Property, &key), None);
    assert_eq!(
        dom.attribute(div, AttrKind::Attribute, &key),
        Some(AttrValue::Text("two".to_string()))
    );
    assert_eq!(Attr::set(&one, &mut dom, text), Err(DomError::NotAnElement));
    assert_eq!(one.remove(&mut dom, text), Err(DomError::NotAnElement));
    assert_eq!(Attr::set(&one, &mut dom, 99), Err(DomError::NoSuchNode));
    assert_eq!(dom.attribute(99, AttrKind::Attribute, &key), None);
}

#[test]
fn the_attribute_trait_stores_under_the_key() {
    let (mut dom, div, _p, _span, _text) = small_tree();
    let attr = Attr::attribute("title", AttrValue::Null);
    assert_eq!(Attribute::key(&attr), "title".to_string());
    assert_eq!(Attribute::set(&attr, &mut dom, div), Ok(()));
    assert_eq!(
        dom.attribute(div, AttrKind::Attribute, &"title".to_string()),
        Some(AttrValue::Null)
    );
}

#[test]
fn listeners_are_refused_on_text_nodes() {
    let (mut dom, div, _p, _span, text) = small_tree();
    assert_eq!(dom.add_listener(div, ConcreteVListener::new("click", 1)), Ok(()));
    assert_eq!(
        dom.add_listener(text, ConcreteVListener::new("click", 1)),
        Err(DomError::NotAnElement)
    );
    assert_eq!(
        dom.add_listener(99, ConcreteVListener::new("click", 1)),
        Err(DomError::NoSuchNode)
    );
}

#[test]
fn create_element_makes_the_whole_subtree() {
    let mut link = Node::new("a");
    link.add_attribute(Attr::property("href", AttrValue::Text("/x".to_string())));
    link.append_string("go".to_string());
    link.add_event_listener(ConcreteVListener::new("click", 4));
    let mut vnode = Node::new("div");
    vnode.append_string("see".to_string());
    vnode.append_child(link);

    let mut dom = Dom::new();
    let other = dom.create_element("body");
    let root = create_element(&mut dom, &vnode);
    assert_eq!(root, other + 1);
    assert_eq!(dom.parent_node(root), None);
    assert_eq!(dom.tag(root), Some("div".to_string()));
    let kids = dom.child_nodes(root);
    assert_eq!(kids, vec![root + 1, root + 2]);
    assert_eq!(dom.text(kids[0]), Some("see".to_string()));
    assert_eq!(dom.tag(kids[1]), Some("a".to_string()));
    assert_eq!(
        dom.attribute(kids[1], AttrKind::Property, &"href".to_string()),
        Some(AttrValue::Text("/x".to_string()))
    );
    let held = dom.listeners(kids[1]);
    assert_eq!(held.len(), 1);
    assert_eq!(held[0].event, "click");
    assert_eq!(held[0].handler, 4);
    assert!(dom.listeners(root).is_empty());
    let below = dom.child_nodes(kids[1]);
    assert_eq!(below, vec![root + 3]);
    assert_eq!(dom.text(below[0]), Some("go".to_string()));
    assert_eq!(dom.len(), 5);
    assert_eq!(dom.child_count(other), 0);
}

#[test]
fn a_listener_installs_itself() {
    let (mut dom, div, _p, _span, text) = small_tree();
    let listener = ConcreteVListener::new("click", 3);
    assert_eq!(VListener::key(&listener), "click".to_string());
    assert_eq!(listener.install(&mut dom, div), Ok(()));
    assert_eq!(listener.install(&mut dom, text), Err(DomError::NotAnElement));
    let held = dom.listeners(div);
    assert_eq!(held.len(), 1);
    assert_eq!(held[0].event, "click");
    assert_eq!(held[0].handler, 3);
    assert!(dom.listeners(text).is_empty());
    assert!(dom.listeners(99).is_empty());
}

#[test]
fn a_listener_takes_itself_off() {
    let (mut dom, div, _p, _span, text) = small_tree();
    let click = ConcreteVListener::new("click", 3);
    let other = ConcreteVListener::new("click", 4);
    let key = ConcreteVListener::new("keydown", 3);
    assert_eq!(click.install(&mut dom, div), Ok(()));
    assert_eq!(other.install(&mut dom, div), Ok(()));
    assert_eq!(key.install(&mut dom, div), Ok(()));
    assert_eq!(click.install(&mut dom, div), Ok(()));
    assert_eq!(click.remove(&mut dom, div), Ok(()));
    let held = dom.listeners(div);
    assert_eq!(held.len(), 2);
    assert_eq!(held[0].handler, 4);
    assert_eq!(held[1].event, "keydown");
    assert_eq!(click.remove(&mut dom, div), Ok(()));
    assert_eq!(dom.listeners(div).len(), 2);
    assert_eq!(click.remove(&mut dom, text), Err(DomError::NotAnElement));
    assert_eq!(click.remove(&mut dom, 99), Err(DomError::NoSuchNode));
}
