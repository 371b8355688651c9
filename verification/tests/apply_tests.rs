use vdom::apply::{apply, apply_fault, apply_patch, patch_fault, reaches, resolve, ApplyError};
use vdom::attribute::{Attr, AttrKind, AttrValue};
use vdom::diff::{diff, Operation, Patch};
use vdom::dom::{Dom, DomError};
use vdom::node::{Child, Node};
use vdom::root::create_element;

fn with_text(tag: &str, value: &str) -> Node {
    let mut node = Node::new(tag);
    node.append_string(value.to_string());
    node
}

fn list(items: &[&str]) -> Node {
    let mut ul = Node::new("ul");
    for item in items.iter() {
        ul.append_child(with_text("li", item));
    }
    ul
}

// Whether the live subtree under `id` has the shape of `child`: tags, texts,
// children, and each attribute of the snapshot stored under its kind and name.
fn shows(dom: &Dom, id: usize, child: &Child) -> bool {
    match child {
        Child::Text(text) => dom.text(id) == Some(text.clone()),
        Child::Node(node) => {
            if dom.tag(id) != Some(node.tag.clone()) {
                return false;
            }
            for attr in node.attributes.iter() {
                if dom.attribute(id, attr.kind, &attr.key) != Some(attr.value.duplicate()) {
                    return false;
                }
            }
            let kids = dom.child_nodes(id);
            if kids.len() != node.children.len() {
                return false;
            }
            for (kid, below) in kids.iter().zip(node.children.iter()) {
                if dom.parent_node(*kid) != Some(id) {
                    return false;
                }
                if !shows(dom, *kid, below) {
                    return false;
                }
            }
            true
        }
    }
}

// Makes `old` live, applies the diff to `new`, and says whether the live tree
// then shows `new`.
fn reconciles(old: Node, new: Node) -> bool {
    let mut dom = Dom::new();
    let root = create_element(&mut dom, &old);
    assert!(shows(&dom, root, &Child::Node(diff_free_copy(&old))));
    let patches = diff(&old, &new);
    assert_eq!(apply_fault(&dom, root, &patches), None);
    apply(&mut dom, root, patches);
    let fresh = {
        let mut other = Dom::new();
        let made = create_element(&mut other, &new);
        shows(&other, made, &Child::Node(diff_free_copy(&new)))
    };
    assert!(fresh);
    shows(&dom, root, &Child::Node(new))
}

fn diff_free_copy(node: &Node) -> Node {
    let mut copy = Node::new(&node.tag);
    for attr in node.attributes.iter() {
        copy.add_attribute(attr.duplicate());
    }
    for child in node.children.iter() {
        match child {
            Child::Text(text) => copy.append_string(text.clone()),
            Child::Node(below) => copy.append_child(diff_free_copy(below)),
        }
    }
    copy
}

#[test]
fn applying_a_diff_gives_the_new_tree_for_texts() {
    assert!(reconciles(with_text("p", "old"), with_text("p", "new")));
}

#[test]
fn applying_a_diff_gives_the_new_tree_for_attributes() {
    let mut old = Node::new("input");
    old.add_attribute(Attr::property("value", AttrValue::Text("a".to_string())));
    old.add_attribute(Attr::property("disabled", AttrValue::Bool(true)));
    old.add_attribute(Attr::attribute("data-x", AttrValue::Number(1)));
    let mut new = Node::new("input");
    new.add_attribute(Attr::property("value", AttrValue::Text("b".to_string())));
    new.add_attribute(Attr::attribute("data-x", AttrValue::Number(1)));
    new.add_attribute(Attr::attribute("title", AttrValue::Null));

    let mut dom = Dom::new();
    let root = create_element(&mut dom, &old);
    let patches = diff(&old, &new);
    assert_eq!(apply_fault(&dom, root, &patches), None);
    apply(&mut dom, root, patches);
    assert!(shows(&dom, root, &Child::Node(diff_free_copy(&new))));
    assert_eq!(
        dom.attribute(root, AttrKind::Property, &"disabled".to_string()),
        None
    );
    assert_eq!(
        dom.attribute(root, AttrKind::Property, &"value".to_string()),
        Some(AttrValue::Text("b".to_string()))
    );
}

#[test]
fn applying_a_diff_gives_the_new_tree_when_children_go() {
    assert!(reconciles(list(&["1", "2", "3"]), list(&["1"])));
    assert!(reconciles(list(&["1", "2", "3"]), list(&[])));
}

#[test]
fn applying_a_diff_gives_the_new_tree_when_children_come() {
    assert!(reconciles(list(&["1"]), list(&["1", "2", "3"])));
    assert!(reconciles(list(&[]), list(&["x", "y"])));
}

#[test]
fn applying_a_diff_gives_the_new_tree_for_nested_changes() {
    // old: div > [ul > [li, li, li], p > ["a"], "t"]
    let mut old = Node::new("div");
    old.append_child(list(&["1", "2", "3"]));
    old.append_child(with_text("p", "a"));
    old.append_string("t".to_string());
    // new: div > [ul > [li], p > ["b", em], "u", span]
    let mut p = with_text("p", "b");
    p.append_child(Node::new("em"));
    let mut new = Node::new("div");
    new.add_attribute(Attr::property("className", AttrValue::Text("k".to_string())));
    new.append_child(list(&["one"]));
    new.append_child(p);
    new.append_string("u".to_string());
    new.append_child(with_text("span", "s"));
    assert!(reconciles(old, new));
}

#[test]
fn applying_a_diff_gives_the_new_tree_when_a_leaf_is_replaced() {
    // a text by an element, and an element without children by another
    let mut old = Node::new("div");
    old.append_string("t".to_string());
    old.append_child(Node::new("hr"));
    old.append_string("after".to_string());
    let mut new = Node::new("div");
    new.append_child(list(&["x"]));
    new.append_child(with_text("p", "y"));
    new.append_string("AFTER".to_string());
    assert!(reconciles(old, new));
}

#[test]
fn applying_a_diff_gives_the_new_tree_after_a_replaced_subtree() {
    // the replaced `a` has a child of its own; the `p` after it changes
    let mut p_old = Node::new("p");
    p_old.add_attribute(Attr::property("href", AttrValue::Text("k".to_string())));
    let mut old = Node::new("div");
    old.append_child(with_text("a", "x"));
    old.append_child(p_old);
    let mut p_new = Node::new("p");
    p_new.add_attribute(Attr::property("href", AttrValue::Text("m".to_string())));
    let mut new = Node::new("div");
    new.append_child(with_text("b", "x"));
    new.append_child(p_new);
    assert!(reconciles(old, new));
}

#[test]
fn applying_a_diff_gives_the_new_tree_after_replaced_subtrees_at_several_levels() {
    let mut inner_old = Node::new("section");
    inner_old.append_child(list(&["x", "y"]));
    inner_old.append_string("t".to_string());
    let mut old = Node::new("div");
    old.append_child(inner_old);
    old.append_child(list(&["1", "2"]));
    old.append_string("end".to_string());

    let mut inner_new = Node::new("section");
    inner_new.append_child(with_text("ol", "z"));
    inner_new.append_string("T".to_string());
    let mut new = Node::new("div");
    new.append_child(inner_new);
    new.append_child(with_text("p", "now"));
    new.append_string("END".to_string());
    assert!(reconciles(old, new));
}

#[test]
fn a_text_in_place_of_an_element_keeps_the_element() {
    let mut old = Node::new("div");
    old.append_child(Node::new("p"));
    let new = with_text("div", "plain");

    let mut dom = Dom::new();
    let root = create_element(&mut dom, &old);
    let patches = diff(&old, &new);
    assert_eq!(apply_fault(&dom, root, &patches), None);
    apply(&mut dom, root, patches);
    let kids = dom.child_nodes(root);
    assert_eq!(dom.tag(kids[0]), Some("p".to_string()));
    let below = dom.child_nodes(kids[0]);
    assert_eq!(below.len(), 1);
    assert_eq!(dom.text(below[0]), Some("plain".to_string()));
    assert!(!shows(&dom, root, &Child::Node(new)));
}

#[test]
fn no_patch_leaves_the_tree_alone() {
    let node = list(&["1", "2"]);
    let mut dom = Dom::new();
    let root = create_element(&mut dom, &node);
    let before = dom.len();
    apply(&mut dom, root, vec![]);
    assert_eq!(dom.len(), before);
    assert!(shows(&dom, root, &Child::Node(node)));
    // not even the root is looked at
    assert_eq!(apply_fault(&dom, 99, &vec![]), None);
    assert!(reaches(&dom, 99, &vec![]));
    apply(&mut dom, 99, vec![]);
    assert_eq!(dom.len(), before);
}

#[test]
fn an_address_beyond_the_tree_is_out_of_nodes() {
    let node = list(&["1"]);
    let mut dom = Dom::new();
    let root = create_element(&mut dom, &node);
    // ul, li, "1": addresses 0 to 2
    let patches = vec![
        Operation::ReplaceText("x").at(&2),
        Operation::ReplaceText("y").at(&3),
    ];
    assert!(!reaches(&dom, root, &patches));
    assert_eq!(apply_fault(&dom, root, &patches), Some(ApplyError::OutOfNodes));
    // the test touches nothing
    assert!(shows(&dom, root, &Child::Node(node)));
    let within = vec![Operation::ReplaceText("x").at(&2)];
    assert!(reaches(&dom, root, &within));
    assert_eq!(apply_fault(&dom, root, &within), None);
}

#[test]
fn a_root_that_is_no_node_is_refused() {
    let dom = Dom::new();
    let patches = vec![Operation::RemoveLast(0).at(&0)];
    assert!(!reaches(&dom, 0, &patches));
    assert_eq!(
        apply_fault(&dom, 0, &patches),
        Some(ApplyError::Refused(DomError::NoSuchNode))
    );
}

#[test]
fn replacing_a_node_without_parent_is_a_missing_parent() {
    let old = Node::new("a");
    let new = Node::new("div");
    let mut dom = Dom::new();
    let root = create_element(&mut dom, &old);
    let before = dom.len();
    let patches = diff(&old, &new);
    assert_eq!(apply_fault(&dom, root, &patches), Some(ApplyError::MissingParent));
    let patch = Patch { node: root, operation: Operation::ReplaceNode(&new) };
    assert_eq!(patch_fault(&dom, &patch), Some(ApplyError::MissingParent));
    assert_eq!(dom.len(), before);
    assert_eq!(dom.tag(root), Some("a".to_string()));
}

#[test]
fn a_fault_is_found_where_it_would_happen() {
    // the first patch removes the children that the second counts on
    let node = list(&["1", "2"]);
    let mut dom = Dom::new();
    let root = create_element(&mut dom, &node);
    let patches = vec![
        Operation::RemoveLast(2).at(&0),
        Operation::RemoveLast(1).at(&0),
    ];
    assert_eq!(apply_fault(&dom, root, &patches), Some(ApplyError::TooFewChildren));
    assert_eq!(dom.child_count(root), 2);
    let fine = vec![
        Operation::RemoveLast(1).at(&0),
        Operation::RemoveLast(1).at(&0),
    ];
    assert_eq!(apply_fault(&dom, root, &fine), None);
    apply(&mut dom, root, fine);
    assert_eq!(dom.child_count(root), 0);
}

#[test]
fn resolve_binds_each_patch_to_the_node_at_its_address() {
    let node = list(&["1", "2"]);
    let mut dom = Dom::new();
    let _other = dom.create_element("body");
    let root = create_element(&mut dom, &node);
    // ul=root, li=root+1, "1"=root+2, li=root+3, "2"=root+4
    let patches = vec![
        Operation::RemoveLast(0).at(&0),
        Operation::ReplaceText("a").at(&2),
        Operation::ReplaceText("b").at(&2),
        Operation::ReplaceText("c").at(&4),
    ];
    assert!(reaches(&dom, root, &patches));
    let bound = resolve(&dom, root, patches);
    let nodes: Vec<usize> = bound.iter().map(|patch| patch.node).collect();
    assert_eq!(nodes, vec![root, root + 2, root + 2, root + 4]);
    assert_eq!(bound[3].operation, Operation::ReplaceText("c"));
}

#[test]
fn resolve_never_walks_back() {
    let node = list(&["1", "2"]);
    let mut dom = Dom::new();
    let root = create_element(&mut dom, &node);
    let patches = vec![
        Operation::RemoveLast(0).at(&3),
        Operation::RemoveLast(0).at(&1),
        Operation::RemoveLast(0).at(&-5),
        Operation::RemoveLast(0).at(&4),
    ];
    assert!(reaches(&dom, root, &patches));
    let bound = resolve(&dom, root, patches);
    let nodes: Vec<usize> = bound.iter().map(|patch| patch.node).collect();
    assert_eq!(nodes, vec![root + 3, root + 3, root + 3, root + 4]);
}

#[test]
fn the_walk_reaches_the_addresses_of_the_tree_and_no_more() {
    let node = list(&["1"]);
    let mut dom = Dom::new();
    let root = create_element(&mut dom, &node);
    assert!(reaches(&dom, root, &vec![Operation::RemoveLast(0).at(&2)]));
    assert!(!reaches(&dom, root, &vec![Operation::RemoveLast(0).at(&3)]));
    assert!(reaches(&dom, root, &vec![Operation::RemoveLast(0).at(&-7)]));
    assert!(!reaches(
        &dom,
        root,
        &vec![
            Operation::RemoveLast(0).at(&5),
            Operation::RemoveLast(0).at(&0)
        ]
    ));
    let none: Vec<Patch<i32>> = vec![];
    assert_eq!(resolve(&dom, 99, none), vec![]);
}

#[test]
fn remove_last_takes_children_from_the_end() {
    let node = list(&["1", "2", "3"]);
    let mut dom = Dom::new();
    let root = create_element(&mut dom, &node);
    let kids = dom.child_nodes(root);
    let patch = Patch { node: root, operation: Operation::RemoveLast(2) };
    assert_eq!(patch_fault(&dom, &patch), None);
    apply_patch(&mut dom, patch);
    assert_eq!(dom.child_nodes(root), vec![kids[0]]);
    assert_eq!(dom.parent_node(kids[1]), None);
    assert_eq!(dom.parent_node(kids[2]), None);
}

#[test]
fn remove_last_of_more_than_there_is_cannot_be_executed() {
    let node = list(&["1", "2"]);
    let mut dom = Dom::new();
    let root = create_element(&mut dom, &node);
    let patch = Patch { node: root, operation: Operation::RemoveLast(3) };
    assert_eq!(patch_fault(&dom, &patch), Some(ApplyError::TooFewChildren));
    let patch = Patch { node: root, operation: Operation::RemoveLast(-1) };
    assert_eq!(patch_fault(&dom, &patch), Some(ApplyError::TooFewChildren));
    let patch = Patch { node: root, operation: Operation::RemoveLast(2) };
    assert_eq!(patch_fault(&dom, &patch), None);
    let patch = Patch { node: root, operation: Operation::RemoveLast(0) };
    assert_eq!(patch_fault(&dom, &patch), None);
    assert_eq!(dom.child_count(root), 2);
}

#[test]
fn insert_goes_before_the_child_at_the_position() {
    let node = list(&["1", "2"]);
    let mut dom = Dom::new();
    let root = create_element(&mut dom, &node);
    let kids = dom.child_nodes(root);
    let fresh = with_text("li", "new");
    let patch = Patch { node: root, operation: Operation::Insert(1, &fresh) };
    assert_eq!(patch_fault(&dom, &patch), None);
    apply_patch(&mut dom, patch);
    let after = dom.child_nodes(root);
    assert_eq!(after.len(), 3);
    assert_eq!(after[0], kids[0]);
    assert_eq!(after[2], kids[1]);
    assert!(shows(&dom, after[1], &Child::Node(with_text("li", "new"))));
}

#[test]
fn insert_beyond_the_children_appends() {
    let node = list(&["1", "2"]);
    let mut dom = Dom::new();
    let root = create_element(&mut dom, &node);
    let kids = dom.child_nodes(root);
    let fresh = Node::new("li");
    let patch = Patch { node: root, operation: Operation::Insert(7, &fresh) };
    apply_patch(&mut dom, patch);
    let patch = Patch { node: root, operation: Operation::Insert(-1, &fresh) };
    apply_patch(&mut dom, patch);
    let after = dom.child_nodes(root);
    assert_eq!(after.len(), 4);
    assert_eq!(after[0], kids[0]);
    assert_eq!(after[1], kids[1]);
    assert_eq!(dom.tag(after[2]), Some("li".to_string()));
    assert_eq!(dom.tag(after[3]), Some("li".to_string()));
}

#[test]
fn patches_on_a_text_node_cannot_be_executed() {
    let mut dom = Dom::new();
    let text = dom.create_text_node("t");
    let attr = Attr::property("k", AttrValue::Null);
    let fresh = Node::new("p");
    let kids = vec![Child::Text("x".to_string())];
    let refused = Some(ApplyError::Refused(DomError::NotAnElement));
    let patch = Patch { node: text, operation: Operation::SetAttribute(&attr) };
    assert_eq!(patch_fault(&dom, &patch), refused);
    let patch = Patch { node: text, operation: Operation::RemoveAttribute(&attr) };
    assert_eq!(patch_fault(&dom, &patch), refused);
    let patch = Patch { node: text, operation: Operation::Append(&kids[..]) };
    assert_eq!(patch_fault(&dom, &patch), refused);
    let patch = Patch { node: text, operation: Operation::Insert(0, &fresh) };
    assert_eq!(patch_fault(&dom, &patch), refused);
    let patch = Patch { node: text, operation: Operation::Append(&kids[..0]) };
    assert_eq!(patch_fault(&dom, &patch), None);
    apply_patch(&mut dom, patch);
    let patch = Patch { node: text, operation: Operation::ReplaceText("u") };
    assert_eq!(patch_fault(&dom, &patch), None);
    apply_patch(&mut dom, patch);
    assert_eq!(dom.text(text), Some("u".to_string()));
    let patch = Patch { node: 99, operation: Operation::ReplaceText("x") };
    assert_eq!(
        patch_fault(&dom, &patch),
        Some(ApplyError::Refused(DomError::NoSuchNode))
    );
    assert_eq!(dom.len(), 1);
}

#[test]
fn append_makes_texts_and_elements() {
    let mut dom = Dom::new();
    let root = dom.create_element("div");
    let kids = vec![
        Child::Text("a".to_string()),
        Child::Node(with_text("p", "b")),
    ];
    let patch = Patch { node: root, operation: Operation::Append(&kids[..]) };
    assert_eq!(patch_fault(&dom, &patch), None);
    apply_patch(&mut dom, patch);
    let mut wanted = Node::new("div");
    wanted.append_string("a".to_string());
    wanted.append_child(with_text("p", "b"));
    assert!(shows(&dom, root, &Child::Node(wanted)));
}
