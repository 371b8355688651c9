use vdom::attribute::{Attr, AttrValue};
use vdom::diff::{count_children, diff, Operation, Patch};
use vdom::node::{Child, Node};

fn text(value: &str) -> Child {
    Child::Text(value.to_string())
}

fn leaf(tag: &str) -> Node {
    Node::new(tag)
}

fn with_text(tag: &str, value: &str) -> Node {
    let mut node = Node::new(tag);
    node.append_string(value.to_string());
    node
}

// div > [p > ["one"], span > [em > ["two"], "three"], "four"]
fn sample() -> Node {
    let mut span = Node::new("span");
    span.append_child(with_text("em", "two"));
    span.append_string("three".to_string());
    let mut root = Node::new("div");
    root.add_attribute(Attr::property("className", AttrValue::Text("box".to_string())));
    root.add_attribute(Attr::attribute("data-id", AttrValue::Number(7)));
    root.append_child(with_text("p", "one"));
    root.append_child(span);
    root.append_string("four".to_string());
    root
}

fn addresses(patches: &Vec<Patch<i32>>) -> Vec<i32> {
    let mut out = Vec::new();
    for patch in patches.iter() {
        out.push(patch.node);
    }
    out
}

#[test]
fn test_diff_changed_tag() {
    let mut old_node = Node::new("a");
    old_node.append_string("some link".into());

    let mut new_node = Node::new("div");
    new_node.append_string("some stuff".into());

    assert_eq!(
        diff(&old_node, &new_node),
        vec![Operation::ReplaceNode(&new_node).at(&0)]
    );
}

#[test]
fn diff_of_a_snapshot_with_itself_is_empty() {
    let tree = sample();
    assert_eq!(diff(&tree, &tree), vec![]);
}

#[test]
fn diff_of_equal_snapshots_is_empty() {
    let one = sample();
    let two = sample();
    assert!(one == two);
    assert_eq!(diff(&one, &two), vec![]);
}

#[test]
fn diff_ignores_the_order_of_attributes() {
    let mut one = Node::new("div");
    one.add_attribute(Attr::property("a", AttrValue::Number(1)));
    one.add_attribute(Attr::property("b", AttrValue::Number(2)));
    let mut two = Node::new("div");
    two.add_attribute(Attr::property("b", AttrValue::Number(2)));
    two.add_attribute(Attr::property("a", AttrValue::Number(1)));
    assert_eq!(diff(&one, &two), vec![]);
}

#[test]
fn tag_mismatch_gives_one_replacement_whatever_is_below() {
    let mut old_node = sample();
    old_node.tag = "a".to_string();
    let new_node = sample();
    let patches = diff(&old_node, &new_node);
    assert_eq!(patches, vec![Operation::ReplaceNode(&new_node).at(&0)]);
}

#[test]
fn changed_attribute_value_gives_one_set() {
    let mut old_node = Node::new("div");
    old_node.add_attribute(Attr::property("className", AttrValue::Text("a".to_string())));
    old_node.append_child(leaf("p"));
    let mut new_node = Node::new("div");
    new_node.add_attribute(Attr::property("className", AttrValue::Text("b".to_string())));
    new_node.append_child(leaf("p"));
    let wanted = Attr::property("className", AttrValue::Text("b".to_string()));
    assert_eq!(
        diff(&old_node, &new_node),
        vec![Operation::SetAttribute(&wanted).at(&0)]
    );
}

#[test]
fn attribute_only_in_old_gives_one_removal() {
    let mut old_node = Node::new("div");
    old_node.add_attribute(Attr::attribute("title", AttrValue::Text("t".to_string())));
    let new_node = Node::new("div");
    let gone = Attr::attribute("title", AttrValue::Text("t".to_string()));
    assert_eq!(
        diff(&old_node, &new_node),
        vec![Operation::RemoveAttribute(&gone).at(&0)]
    );
}

#[test]
fn attribute_only_in_new_gives_one_set() {
    let old_node = Node::new("div");
    let mut new_node = Node::new("div");
    new_node.add_attribute(Attr::attribute("title", AttrValue::Bool(true)));
    let fresh = Attr::attribute("title", AttrValue::Bool(true));
    assert_eq!(
        diff(&old_node, &new_node),
        vec![Operation::SetAttribute(&fresh).at(&0)]
    );
}

#[test]
fn attribute_patches_come_removed_and_changed_first_then_added() {
    let mut old_node = Node::new("div");
    old_node.add_attribute(Attr::property("a", AttrValue::Number(1)));
    old_node.add_attribute(Attr::property("b", AttrValue::Number(2)));
    old_node.add_attribute(Attr::property("c", AttrValue::Number(3)));
    let mut new_node = Node::new("div");
    new_node.add_attribute(Attr::property("d", AttrValue::Number(4)));
    new_node.add_attribute(Attr::property("b", AttrValue::Number(20)));
    new_node.add_attribute(Attr::property("c", AttrValue::Number(3)));
    let a = Attr::property("a", AttrValue::Number(1));
    let b = Attr::property("b", AttrValue::Number(20));
    let d = Attr::property("d", AttrValue::Number(4));
    assert_eq!(
        diff(&old_node, &new_node),
        vec![
            Operation::RemoveAttribute(&a).at(&0),
            Operation::SetAttribute(&b).at(&0),
            Operation::SetAttribute(&d).at(&0),
        ]
    );
}

#[test]
fn fewer_children_gives_remove_last() {
    let mut old_node = Node::new("ul");
    old_node.append_child(with_text("li", "1"));
    old_node.append_child(with_text("li", "2"));
    old_node.append_child(with_text("li", "3"));
    let mut new_node = Node::new("ul");
    new_node.append_child(with_text("li", "1"));
    assert_eq!(
        diff(&old_node, &new_node),
        vec![Operation::RemoveLast(2).at(&0)]
    );
}

#[test]
fn more_children_gives_append_of_the_new_ones() {
    let mut old_node = Node::new("ul");
    old_node.append_child(with_text("li", "1"));
    let mut new_node = Node::new("ul");
    new_node.append_child(with_text("li", "1"));
    new_node.append_child(with_text("li", "2"));
    new_node.append_child(with_text("li", "3"));
    let patches = diff(&old_node, &new_node);
    assert_eq!(
        patches,
        vec![Operation::Append(&new_node.children[1..]).at(&0)]
    );
}

#[test]
fn text_children_are_compared_by_value() {
    let old_node = with_text("p", "before");
    let new_node = with_text("p", "after");
    assert_eq!(
        diff(&old_node, &new_node),
        vec![Operation::ReplaceText("after").at(&1)]
    );
}

#[test]
fn text_in_place_of_an_element_gives_replace_text() {
    let mut old_node = Node::new("div");
    old_node.append_child(leaf("p"));
    let new_node = with_text("div", "plain");
    assert_eq!(
        diff(&old_node, &new_node),
        vec![Operation::ReplaceText("plain").at(&1)]
    );
}

#[test]
fn element_in_place_of_a_text_gives_replace_node() {
    let old_node = with_text("div", "plain");
    let mut new_node = Node::new("div");
    new_node.append_child(leaf("p"));
    let wanted = leaf("p");
    assert_eq!(
        diff(&old_node, &new_node),
        vec![Operation::ReplaceNode(&wanted).at(&1)]
    );
}

#[test]
fn addresses_follow_the_pre_order_of_the_old_tree() {
    // old: div > [p > ["one"], span > [em > ["two"], "three"], "four"]
    //       0     1    2        3       4     5       6        7
    let old_node = sample();
    let mut span = Node::new("span");
    span.append_child(with_text("em", "TWO"));
    span.append_string("THREE".to_string());
    let mut new_node = Node::new("div");
    new_node.add_attribute(Attr::property("className", AttrValue::Text("box".to_string())));
    new_node.add_attribute(Attr::attribute("data-id", AttrValue::Number(7)));
    new_node.append_child(with_text("p", "ONE"));
    new_node.append_child(span);
    new_node.append_string("FOUR".to_string());
    let patches = diff(&old_node, &new_node);
    assert_eq!(
        patches,
        vec![
            Operation::ReplaceText("ONE").at(&2),
            Operation::ReplaceText("TWO").at(&5),
            Operation::ReplaceText("THREE").at(&6),
            Operation::ReplaceText("FOUR").at(&7),
        ]
    );
}

#[test]
fn addresses_never_go_back() {
    let old_node = sample();
    let mut new_node = sample();
    new_node.add_attribute(Attr::property("className", AttrValue::Text("other".to_string())));
    new_node.add_attribute(Attr::property("hidden", AttrValue::Bool(true)));
    new_node.children.pop();
    new_node.children[0] = text("now a text");
    let patches = diff(&old_node, &new_node);
    let seen = addresses(&patches);
    assert_eq!(seen, vec![0, 0, 0, 1]);
    for pair in seen.windows(2) {
        assert!(pair[0] <= pair[1]);
    }
}

#[test]
fn addresses_rise_strictly_with_one_edit_per_element() {
    let old_node = sample();
    let mut new_node = sample();
    new_node.add_attribute(Attr::property("className", AttrValue::Text("other".to_string())));
    new_node.children[2] = text("changed");
    let seen = addresses(&diff(&old_node, &new_node));
    assert_eq!(seen, vec![0, 7]);
    for pair in seen.windows(2) {
        assert!(pair[0] < pair[1]);
    }
}

#[test]
fn removed_children_still_take_up_addresses() {
    // old: div > [ul > [li > ["a"], li > ["b"]], p > ["old"]]
    //       0     1     2     3     4     5      6    7
    let mut ul = Node::new("ul");
    ul.append_child(with_text("li", "a"));
    ul.append_child(with_text("li", "b"));
    let mut old_node = Node::new("div");
    old_node.append_child(ul);
    old_node.append_child(with_text("p", "old"));

    let mut short = Node::new("ul");
    short.append_child(with_text("li", "a"));
    let mut new_node = Node::new("div");
    new_node.append_child(short);
    new_node.append_child(with_text("p", "new"));

    assert_eq!(
        diff(&old_node, &new_node),
        vec![
            Operation::RemoveLast(1).at(&1),
            Operation::ReplaceText("new").at(&7),
        ]
    );
}

#[test]
fn a_replaced_element_still_takes_up_addresses() {
    // old: div > [a > ["x"], "t1"]: the text "t1" is the fourth node that the
    //       0     1     2     3     walk meets, whatever becomes of `a`
    let mut old_node = Node::new("div");
    old_node.append_child(with_text("a", "x"));
    old_node.append_string("t1".to_string());
    let mut new_node = Node::new("div");
    new_node.append_child(leaf("b"));
    new_node.append_string("t2".to_string());
    let wanted = leaf("b");
    assert_eq!(
        diff(&old_node, &new_node),
        vec![
            Operation::ReplaceNode(&wanted).at(&1),
            Operation::ReplaceText("t2").at(&3),
        ]
    );
}

#[test]
fn an_element_replaced_by_a_text_still_takes_up_addresses() {
    // old: div > [ul > [li > ["a"]], "t1"]
    //       0     1     2     3       4
    let mut ul = Node::new("ul");
    ul.append_child(with_text("li", "a"));
    let mut old_node = Node::new("div");
    old_node.append_child(ul);
    old_node.append_string("t1".to_string());
    let mut new_node = Node::new("div");
    new_node.append_string("plain".to_string());
    new_node.append_string("t2".to_string());
    assert_eq!(
        diff(&old_node, &new_node),
        vec![
            Operation::ReplaceText("plain").at(&1),
            Operation::ReplaceText("t2").at(&4),
        ]
    );
}

#[test]
fn count_children_counts_every_node_below() {
    let tree = sample();
    assert_eq!(count_children(&tree.children[..]), 7);
    assert_eq!(count_children(&tree.children[1..2]), 4);
    assert_eq!(count_children(&tree.children[2..]), 1);
    assert_eq!(count_children(&[]), 0);
}

#[test]
fn patch_at_rebinds_the_node_and_keeps_the_operation() {
    let patch = Operation::RemoveLast(3).at(&5);
    assert_eq!(patch.node, 5);
    let bound = patch.at(17usize);
    assert_eq!(bound.node, 17usize);
    assert_eq!(bound.operation, Operation::RemoveLast(3));
}
