use vdom::apply::ApplyError;
use vdom::attribute::AttrKind;
use vdom::component::{Callback, Component, Fault};
use vdom::dom::Dom;
use vdom::node::Node;
use vdom::root::{render, Root};

struct Counter {
    value: i32,
    resend: bool,
    tag: &'static str,
}

enum CounterMsg {
    Inc,
    Dec,
}

impl Component<CounterMsg> for Counter {
    fn view(&self) -> Node {
        let mut p = Node::new("p");
        p.append_string(format!("Counter value: {}", self.value));
        let mut root = Node::new(self.tag);
        root.append_child(p);
        root
    }

    fn update(&mut self, msg: CounterMsg, recur: &mut Callback<CounterMsg>) {
        match msg {
            CounterMsg::Inc => self.value += 1,
            CounterMsg::Dec => self.value -= 1,
        }
        if self.resend {
            // A component must not do this while the handle is held.
            assert!(recur.is_held());
            recur.call(CounterMsg::Inc);
        }
    }
}

fn shown(root: &Root) -> String {
    let dom = root.dom();
    let p = dom.child_nodes(root.mount_point())[0];
    let text = dom.child_nodes(p)[0];
    dom.text(text).unwrap()
}

fn mounted() -> (Root, Counter, Callback<CounterMsg>) {
    let mut dom = Dom::new();
    let target = dom.create_element("div");
    let counter = Counter { value: 0, resend: false, tag: "div" };
    let root = render(&counter, dom, target).unwrap();
    (root, counter, Callback::new())
}

#[test]
fn render_shows_the_first_view() {
    let (root, counter, _recur) = mounted();
    assert_eq!(shown(&root), "Counter value: 0");
    assert!(*root.vnode() == counter.view());
    assert!(!root.is_updating());
}

#[test]
fn render_gives_up_a_view_that_cannot_be_drawn() {
    let mut dom = Dom::new();
    let target = dom.create_element("div");
    let counter = Counter { value: 0, resend: false, tag: "section" };
    match render(&counter, dom, target) {
        Ok(_) => panic!("a parentless target cannot be replaced"),
        Err(fault) => assert_eq!(fault, Fault::Apply(ApplyError::MissingParent)),
    }
}

#[test]
fn send_updates_and_redraws() {
    let (mut root, mut counter, mut recur) = mounted();
    assert_eq!(root.send(&mut counter, CounterMsg::Inc, &mut recur), Ok(()));
    assert_eq!(root.send(&mut counter, CounterMsg::Inc, &mut recur), Ok(()));
    assert_eq!(shown(&root), "Counter value: 2");
    assert_eq!(root.send(&mut counter, CounterMsg::Dec, &mut recur), Ok(()));
    assert_eq!(shown(&root), "Counter value: 1");
    assert!(*root.vnode() == counter.view());
    assert!(!recur.is_held());
    assert!(!recur.violated());
}

#[test]
fn a_message_from_inside_update_gives_up_the_cycle() {
    let (mut root, mut counter, mut recur) = mounted();
    assert_eq!(root.send(&mut counter, CounterMsg::Inc, &mut recur), Ok(()));
    counter.resend = true;
    let nodes = root.dom().len();
    assert_eq!(
        root.send(&mut counter, CounterMsg::Inc, &mut recur),
        Err(Fault::Reentrant)
    );
    // the live tree and the snapshot are as they were, nothing waits in line
    assert_eq!(shown(&root), "Counter value: 1");
    assert_eq!(root.dom().len(), nodes);
    assert!(!root.is_updating());
    assert!(recur.violated());
    assert!(recur.take().is_none());
    // and the root can be used again
    counter.resend = false;
    assert_eq!(root.send(&mut counter, CounterMsg::Dec, &mut recur), Ok(()));
    assert_eq!(shown(&root), "Counter value: 1");
    assert!(!recur.violated());
}

#[test]
fn send_gives_up_a_view_that_cannot_be_drawn() {
    let (mut root, mut counter, mut recur) = mounted();
    counter.tag = "section";
    assert_eq!(
        root.send(&mut counter, CounterMsg::Inc, &mut recur),
        Err(Fault::Apply(ApplyError::MissingParent))
    );
    assert_eq!(shown(&root), "Counter value: 0");
    assert!(!root.is_updating());
    counter.tag = "div";
    assert_eq!(root.send(&mut counter, CounterMsg::Inc, &mut recur), Ok(()));
    assert_eq!(shown(&root), "Counter value: 2");
}

#[test]
fn a_root_is_held_from_begin_to_finish() {
    let (mut root, mut counter, _recur) = mounted();
    assert!(!root.is_updating());
    root.begin_update();
    assert!(root.is_updating());
    assert_eq!(shown(&root), "Counter value: 0");
    counter.value = 5;
    let next = counter.view();
    assert_eq!(root.draw_fault(&next), None);
    root.finish_update(next);
    assert!(!root.is_updating());
    assert_eq!(shown(&root), "Counter value: 5");
    root.begin_update();
    assert!(root.is_updating());
}

#[test]
fn close_update_gives_up_the_cycle_when_the_handle_refused() {
    let (mut root, _counter, mut recur) = mounted();
    root.begin_update();
    recur.hold();
    assert_eq!(root.close_update(&recur), Ok(()));
    assert!(root.is_updating());
    // sent while held, against the rule
    recur.call(CounterMsg::Inc);
    recur.release();
    assert_eq!(root.close_update(&recur), Err(Fault::Reentrant));
    assert!(!root.is_updating());
    assert_eq!(shown(&root), "Counter value: 0");
}

#[test]
fn the_handle_keeps_messages_in_line_while_it_is_free() {
    let mut recur: Callback<i32> = Callback::new();
    assert!(!recur.is_held());
    assert!(!recur.violated());
    assert_eq!(recur.take(), None);
    recur.call(5);
    recur.call(6);
    assert!(!recur.violated());
    assert_eq!(recur.take(), Some(5));
    recur.call(7);
    assert_eq!(recur.take(), Some(6));
    assert_eq!(recur.take(), Some(7));
    assert_eq!(recur.take(), None);
}

#[test]
fn the_handle_sets_aside_what_comes_while_it_is_held() {
    let mut recur: Callback<i32> = Callback::new();
    recur.call(1);
    recur.hold();
    assert!(recur.is_held());
    recur.call(2);
    assert!(recur.violated());
    recur.release();
    assert!(!recur.is_held());
    assert_eq!(recur.take(), Some(1));
    assert_eq!(recur.take(), None);
    recur.hold();
    assert!(!recur.violated());
}

#[test]
fn mount_starts_from_an_empty_div() {
    let mut dom = Dom::new();
    let target = dom.create_element("div");
    let root = Root::mount(dom, target);
    assert!(*root.vnode() == Node::new("div"));
    assert!(!root.is_updating());
    assert_eq!(root.dom().len(), 1);
    assert_eq!(root.mount_point(), target);
    assert_eq!(
        root.dom().attribute(target, AttrKind::Property, &"x".to_string()),
        None
    );
}

#[test]
fn a_view_of_another_tag_cannot_be_drawn_on_a_parentless_target() {
    let mut dom = Dom::new();
    let target = dom.create_element("div");
    let mut root = Root::mount(dom, target);
    assert_eq!(
        root.draw_fault(&Node::new("section")),
        Some(Fault::Apply(ApplyError::MissingParent))
    );
    assert!(*root.vnode() == Node::new("div"));
    assert_eq!(root.dom().tag(target), Some("div".to_string()));
    let mut next = Node::new("div");
    next.append_string("x".to_string());
    assert_eq!(root.draw_fault(&next), None);
    root.redraw(next);
    assert_eq!(root.dom().child_count(target), 1);
}

#[test]
fn a_second_cycle_starts_from_what_the_first_left() {
    let mut dom = Dom::new();
    let target = dom.create_element("div");
    let mut root = Root::mount(dom, target);
    let mut first = Node::new("div");
    first.append_child(Node::wrap_in("a", vec![Node::new("i")]));
    first.append_string("t1".to_string());
    root.redraw(first);
    let mut second = Node::new("div");
    second.append_child(Node::new("b"));
    second.append_string("t2".to_string());
    assert_eq!(root.draw_fault(&second), None);
    root.redraw(second);
    let mut third = Node::new("div");
    third.append_child(Node::wrap_in("b", vec![Node::new("u")]));
    third.append_string("t3".to_string());
    third.append_child(Node::new("hr"));
    assert_eq!(root.draw_fault(&third), None);
    root.redraw(third);
    let dom = root.dom();
    let kids = dom.child_nodes(target);
    assert_eq!(kids.len(), 3);
    assert_eq!(dom.tag(kids[0]), Some("b".to_string()));
    assert_eq!(dom.tag(dom.child_nodes(kids[0])[0]), Some("u".to_string()));
    assert_eq!(dom.text(kids[1]), Some("t3".to_string()));
    assert_eq!(dom.tag(kids[2]), Some("hr".to_string()));
}
