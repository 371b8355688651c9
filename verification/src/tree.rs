//! The mathematical model of a live tree: an arena of nodes, each named by its
//! index, in which a child always has a larger index than its parent.

use crate::attribute::{AttrKind, AttrValueView, AttrView};
use crate::events::ListenerView;
use vstd::prelude::*;

verus! {

/// One live node as the host holds it. A text node has its text and nothing
/// else; an element has its tag, what was stored on it, and its children.
pub struct LiveView {
    pub parent: Option<usize>,
    pub children: Seq<usize>,
    pub text: Option<Seq<char>>,
    pub tag: Seq<char>,
    pub attributes: Map<(AttrKind, Seq<char>), AttrValueView>,
    pub listeners: Seq<ListenerView>,
}

/// What a list of settings leaves stored on an element: for each kind and
/// name, the value that was set last.
pub open spec fn stored(attrs: Seq<AttrView>) -> Map<(AttrKind, Seq<char>), AttrValueView>
    decreases attrs.len(),
{
    if attrs.len() == 0 {
        Map::empty()
    } else {
        stored(attrs.drop_last()).insert((attrs.last().kind, attrs.last().key), attrs.last().value)
    }
}

/// The node `id` is consistent with its neighbours: its parent has a smaller
/// index and lists it as a child, its children have larger indices, name it
/// as their parent and are all different, and a text node has no children.
pub open spec fn node_ok(d: Seq<LiveView>, id: int) -> bool {
    &&& d[id].parent matches Some(p) ==> p < id && d[p as int].children.contains(id as usize)
    &&& forall|j: int|
        0 <= j < d[id].children.len() ==> id < (#[trigger] d[id].children[j]) < d.len()
            && d[d[id].children[j] as int].parent == Some(id as usize)
    &&& d[id].children.no_duplicates()
    &&& d[id].text is Some ==> d[id].children.len() == 0
}

/// Every node of the arena is consistent with its neighbours.
pub open spec fn tree_ok(d: Seq<LiveView>) -> bool {
    &&& d.len() <= usize::MAX
    &&& forall|id: int| 0 <= id < d.len() ==> #[trigger] node_ok(d, id)
}

/// The first child of `id`, if it has one.
pub open spec fn first_child_of(d: Seq<LiveView>, id: usize) -> Option<usize> {
    if id < d.len() && d[id as int].children.len() > 0 {
        Some(d[id as int].children[0])
    } else {
        None
    }
}

/// The last child of `id`, if it has one.
pub open spec fn last_child_of(d: Seq<LiveView>, id: usize) -> Option<usize> {
    if id < d.len() && d[id as int].children.len() > 0 {
        Some(d[id as int].children.last())
    } else {
        None
    }
}

/// The parent of `id`, if it has one.
pub open spec fn parent_of(d: Seq<LiveView>, id: usize) -> Option<usize> {
    if id < d.len() {
        d[id as int].parent
    } else {
        None
    }
}

/// The child that follows `id` under the same parent, if there is one.
pub open spec fn next_sibling_of(d: Seq<LiveView>, id: usize) -> Option<usize> {
    match parent_of(d, id) {
        Some(p) => {
            let siblings = d[p as int].children;
            let at = siblings.index_of(id);
            if at + 1 < siblings.len() {
                Some(siblings[at + 1])
            } else {
                None
            }
        },
        None => None,
    }
}

/// The nodes of the subtree under `id` in pre-order: the node itself, then
/// the subtrees of its children from first to last.
pub open spec fn preorder(d: Seq<LiveView>, id: usize) -> Seq<usize>
    decreases d.len() - id, d[id as int].children.len() + 1,
{
    if id < d.len() {
        seq![id] + forest_order(d, id, d[id as int].children.len())
    } else {
        Seq::empty()
    }
}

/// The pre-order of the subtrees of the first `n` children of `id`.
pub open spec fn forest_order(d: Seq<LiveView>, id: usize, n: nat) -> Seq<usize>
    decreases d.len() - id, n,
{
    if id >= d.len() || n == 0 || n > d[id as int].children.len() {
        Seq::empty()
    } else {
        let c = d[id as int].children[n - 1];
        forest_order(d, id, (n - 1) as nat) + if id < c < d.len() {
            preorder(d, c)
        } else {
            Seq::empty()
        }
    }
}

/// `x` lies in the subtree under `root`.
pub open spec fn under(d: Seq<LiveView>, root: usize, x: usize) -> bool
    decreases x,
{
    x < d.len() && (x == root || match d[x as int].parent {
        Some(p) => p < x && under(d, root, p),
        None => false,
    })
}

/// The place of `x` in the pre-order of the subtree under `root`, counted
/// from 0: one more than its parent's place, plus the nodes under the
/// siblings that come before it.
pub open spec fn place(d: Seq<LiveView>, root: usize, x: usize) -> int
    decreases x,
{
    if x == root || x >= d.len() {
        0
    } else {
        match d[x as int].parent {
            Some(p) => if p < x {
                place(d, root, p) + 1 + forest_order(
                    d,
                    p,
                    d[p as int].children.index_of(x) as nat,
                ).len()
            } else {
                0
            },
            None => 0,
        }
    }
}

/// The arena after `child` was attached under `parent` before the child at
/// position `at`, or as the last child where there is no such position.
pub open spec fn with_child_at(d: Seq<LiveView>, parent: usize, at: int, child: usize) -> Seq<
    LiveView,
> {
    let siblings = d[parent as int].children;
    let slot = if 0 <= at <= siblings.len() {
        at
    } else {
        siblings.len() as int
    };
    d.update(parent as int, LiveView { children: siblings.insert(slot, child), ..d[parent as int] })
        .update(child as int, LiveView { parent: Some(parent), ..d[child as int] })
}

/// The arena after `child` was detached from `parent`.
pub open spec fn without_child(d: Seq<LiveView>, parent: usize, child: usize) -> Seq<LiveView> {
    let siblings = d[parent as int].children;
    d.update(
        parent as int,
        LiveView { children: siblings.remove(siblings.index_of(child)), ..d[parent as int] },
    ).update(child as int, LiveView { parent: None, ..d[child as int] })
}

/// The arena after `fresh` took the place of `stale` under `parent`.
pub open spec fn with_child_replaced(d: Seq<LiveView>, parent: usize, fresh: usize, stale: usize)
    -> Seq<LiveView> {
    let siblings = d[parent as int].children;
    d.update(
        parent as int,
        LiveView { children: siblings.update(siblings.index_of(stale), fresh), ..d[parent as int] },
    ).update(stale as int, LiveView { parent: None, ..d[stale as int] }).update(
        fresh as int,
        LiveView { parent: Some(parent), ..d[fresh as int] },
    )
}

/// The arena after every child of `id` was detached.
pub open spec fn with_children_released(d: Seq<LiveView>, id: usize) -> Seq<LiveView> {
    Seq::new(
        d.len(),
        |i: int|
            if i == id {
                LiveView { children: Seq::empty(), ..d[i] }
            } else if d[i].parent == Some(id) {
                LiveView { parent: None, ..d[i] }
            } else {
                d[i]
            },
    )
}

/// The arena after the text content of `id` was set: a text node takes the
/// text; an element loses its children and, unless the text is empty, gets a
/// new text node as its only child.
pub open spec fn with_text_content(d: Seq<LiveView>, id: usize, text: Seq<char>) -> Seq<LiveView> {
    if d[id as int].text is Some {
        d.update(id as int, LiveView { text: Some(text), ..d[id as int] })
    } else {
        let cleared = with_children_released(d, id);
        if text.len() == 0 {
            cleared
        } else {
            with_child_at(
                cleared.push(
                    LiveView {
                        parent: None,
                        children: Seq::empty(),
                        text: Some(text),
                        tag: Seq::empty(),
                        attributes: Map::empty(),
                        listeners: Seq::empty(),
                    },
                ),
                id,
                0,
                d.len() as usize,
            )
        }
    }
}

/// The arena after `attr` was stored on `id`.
pub open spec fn with_attribute(d: Seq<LiveView>, id: usize, attr: AttrView) -> Seq<LiveView> {
    d.update(
        id as int,
        LiveView {
            attributes: d[id as int].attributes.insert((attr.kind, attr.key), attr.value),
            ..d[id as int]
        },
    )
}

/// The arena after what was stored on `id` under `kind` and `key` was removed.
pub open spec fn without_attribute(d: Seq<LiveView>, id: usize, kind: AttrKind, key: Seq<char>)
    -> Seq<LiveView> {
    d.update(
        id as int,
        LiveView { attributes: d[id as int].attributes.remove((kind, key)), ..d[id as int] },
    )
}

/// The arena after `listener` was installed on `id`.
pub open spec fn with_listener(d: Seq<LiveView>, id: usize, listener: ListenerView) -> Seq<
    LiveView,
> {
    d.update(id as int, LiveView { listeners: d[id as int].listeners.push(listener), ..d[id as int] })
}

/// The listeners but those equal to `l`, in order.
pub open spec fn dropped(ls: Seq<ListenerView>, l: ListenerView) -> Seq<ListenerView>
    decreases ls.len(),
{
    if ls.len() == 0 {
        Seq::empty()
    } else if ls.last() == l {
        dropped(ls.drop_last(), l)
    } else {
        dropped(ls.drop_last(), l).push(ls.last())
    }
}

/// The arena after the listeners equal to `l` were taken off `id`.
pub open spec fn without_listener(d: Seq<LiveView>, id: usize, l: ListenerView) -> Seq<LiveView> {
    d.update(id as int, LiveView { listeners: dropped(d[id as int].listeners, l), ..d[id as int] })
}

/// A change that touches neither parents nor children, and turns no element
/// into a text node, keeps the invariant.
pub proof fn lemma_same_links_keep_tree(d: Seq<LiveView>, e: Seq<LiveView>)
    requires
        tree_ok(d),
        e.len() == d.len(),
        forall|i: int|
            0 <= i < d.len() ==> (#[trigger] e[i]).parent == d[i].parent && e[i].children
                == d[i].children && (e[i].text is Some ==> d[i].text is Some),
    ensures
        tree_ok(e),
{
    assert forall|id: int| 0 <= id < e.len() implies #[trigger] node_ok(e, id) by {
        assert(node_ok(d, id));
        assert(e[id].children == d[id].children);
        assert forall|j: int| 0 <= j < e[id].children.len() implies id < (
        #[trigger] e[id].children[j]) < e.len() && e[e[id].children[j] as int].parent == Some(
            id as usize,
        ) by {
            let c = d[id].children[j];
            assert(e[c as int].parent == d[c as int].parent);
        }
        if e[id].parent is Some {
            let p = e[id].parent->0;
            assert(e[p as int].children == d[p as int].children);
        }
    }
}

/// A node without a parent is listed by no element.
pub proof fn lemma_orphan_is_unlisted(d: Seq<LiveView>, parent: usize, child: usize)
    requires
        tree_ok(d),
        parent < d.len(),
        child < d.len(),
        d[child as int].parent != Some(parent),
    ensures
        !d[parent as int].children.contains(child),
{
    let siblings = d[parent as int].children;
    if siblings.contains(child) {
        let j = choose|j: int| 0 <= j < siblings.len() && siblings[j] == child;
        assert(node_ok(d, parent as int));
        assert(d[siblings[j] as int].parent == Some(parent));
    }
}

/// Attaching a parentless node under an element that was made before it
/// keeps the invariant.
pub proof fn lemma_adopt_keeps_tree(d: Seq<LiveView>, parent: usize, at: int, child: usize)
    requires
        tree_ok(d),
        parent < child < d.len(),
        d[parent as int].text is None,
        d[child as int].parent is None,
    ensures
        tree_ok(with_child_at(d, parent, at, child)),
{
    let e = with_child_at(d, parent, at, child);
    let siblings = d[parent as int].children;
    let slot = if 0 <= at <= siblings.len() {
        at
    } else {
        siblings.len() as int
    };
    assert(node_ok(d, parent as int));
    assert(node_ok(d, child as int));
    lemma_orphan_is_unlisted(d, parent, child);
    lemma_insert_facts(siblings, slot, child);
    let grown = siblings.insert(slot, child);
    assert(e[parent as int].children == grown);
    assert forall|id: int| 0 <= id < e.len() implies #[trigger] node_ok(e, id) by {
        assert(node_ok(d, id));
        if id == parent {
            assert forall|j: int| 0 <= j < grown.len() implies id < (#[trigger] grown[j]) < e.len()
                && e[grown[j] as int].parent == Some(id as usize) by {
                let c = grown[j];
                if c != child {
                    assert(siblings.contains(c));
                    let k = choose|k: int| 0 <= k < siblings.len() && siblings[k] == c;
                    assert(d[siblings[k] as int].parent == Some(parent));
                }
            }
            if d[id].parent is Some {
                let pp = d[id].parent->0;
                assert(e[pp as int].children == d[pp as int].children);
            }
        } else if id == child {
            assert(e[id].children == d[id].children);
            assert forall|j: int| 0 <= j < e[id].children.len() implies id < (
            #[trigger] e[id].children[j]) < e.len() && e[e[id].children[j] as int].parent == Some(
                id as usize,
            ) by {
                let c = d[id].children[j];
                assert(e[c as int] == d[c as int]);
            }
        } else {
            assert(e[id] == d[id]);
            assert forall|j: int| 0 <= j < e[id].children.len() implies id < (
            #[trigger] e[id].children[j]) < e.len() && e[e[id].children[j] as int].parent == Some(
                id as usize,
            ) by {
                let c = d[id].children[j];
                assert(d[c as int].parent == Some(id as usize));
                assert(e[c as int].parent == d[c as int].parent);
            }
            if d[id].parent is Some {
                let pp = d[id].parent->0;
                if pp == parent {
                    assert(siblings.contains(id as usize));
                } else {
                    assert(e[pp as int].children == d[pp as int].children);
                }
            }
        }
    }
}

/// Detaching a child from its parent keeps the invariant.
pub proof fn lemma_release_keeps_tree(d: Seq<LiveView>, parent: usize, child: usize)
    requires
        tree_ok(d),
        child < d.len(),
        d[child as int].parent == Some(parent),
    ensures
        tree_ok(without_child(d, parent, child)),
        d[parent as int].children.contains(child),
{
    assert(node_ok(d, child as int));
    assert(node_ok(d, parent as int));
    let e = without_child(d, parent, child);
    let siblings = d[parent as int].children;
    let at = siblings.index_of(child);
    assert(siblings[at] == child);
    lemma_remove_facts(siblings, at);
    let shrunk = siblings.remove(at);
    assert(e[parent as int].children == shrunk);
    assert forall|id: int| 0 <= id < e.len() implies #[trigger] node_ok(e, id) by {
        assert(node_ok(d, id));
        if id == parent {
            assert forall|j: int| 0 <= j < shrunk.len() implies id < (#[trigger] shrunk[j])
                < e.len() && e[shrunk[j] as int].parent == Some(id as usize) by {
                let c = shrunk[j];
                assert(siblings.contains(c));
                let k = choose|k: int| 0 <= k < siblings.len() && siblings[k] == c;
                assert(d[siblings[k] as int].parent == Some(parent));
            }
            if d[id].parent is Some {
                let pp = d[id].parent->0;
                assert(e[pp as int].children == d[pp as int].children);
            }
        } else if id == child {
            assert(e[id].children == d[id].children);
            assert forall|j: int| 0 <= j < e[id].children.len() implies id < (
            #[trigger] e[id].children[j]) < e.len() && e[e[id].children[j] as int].parent == Some(
                id as usize,
            ) by {
                let c = d[id].children[j];
                assert(e[c as int] == d[c as int]);
            }
        } else {
            assert(e[id] == d[id]);
            assert forall|j: int| 0 <= j < e[id].children.len() implies id < (
            #[trigger] e[id].children[j]) < e.len() && e[e[id].children[j] as int].parent == Some(
                id as usize,
            ) by {
                let c = d[id].children[j];
                assert(d[c as int].parent == Some(id as usize));
                assert(e[c as int].parent == d[c as int].parent);
            }
            if d[id].parent is Some {
                let pp = d[id].parent->0;
                if pp == parent {
                    assert(siblings.contains(id as usize));
                } else {
                    assert(e[pp as int].children == d[pp as int].children);
                }
            }
        }
    }
}

/// Putting a parentless node, made after the parent, in the place of a child
/// keeps the invariant.
pub proof fn lemma_replace_keeps_tree(d: Seq<LiveView>, parent: usize, fresh: usize, stale: usize)
    requires
        tree_ok(d),
        stale < d.len(),
        d[stale as int].parent == Some(parent),
        parent < fresh < d.len(),
        d[fresh as int].parent is None,
    ensures
        tree_ok(with_child_replaced(d, parent, fresh, stale)),
{
    assert(node_ok(d, stale as int));
    assert(node_ok(d, parent as int));
    assert(node_ok(d, fresh as int));
    let e = with_child_replaced(d, parent, fresh, stale);
    let siblings = d[parent as int].children;
    lemma_orphan_is_unlisted(d, parent, fresh);
    let at = siblings.index_of(stale);
    assert(siblings[at] == stale);
    lemma_update_facts(siblings, at, fresh);
    let swapped = siblings.update(at, fresh);
    assert(e[parent as int].children == swapped);
    assert forall|id: int| 0 <= id < e.len() implies #[trigger] node_ok(e, id) by {
        assert(node_ok(d, id));
        if id == parent {
            assert forall|j: int| 0 <= j < swapped.len() implies id < (#[trigger] swapped[j])
                < e.len() && e[swapped[j] as int].parent == Some(id as usize) by {
                let c = swapped[j];
                if c != fresh {
                    assert(siblings.contains(c));
                    let k = choose|k: int| 0 <= k < siblings.len() && siblings[k] == c;
                    assert(d[siblings[k] as int].parent == Some(parent));
                    assert(c != stale);
                }
            }
            if d[id].parent is Some {
                let pp = d[id].parent->0;
                assert(e[pp as int].children == d[pp as int].children);
            }
        } else if id == fresh || id == stale {
            assert(e[id].children == d[id].children);
            assert forall|j: int| 0 <= j < e[id].children.len() implies id < (
            #[trigger] e[id].children[j]) < e.len() && e[e[id].children[j] as int].parent == Some(
                id as usize,
            ) by {
                let c = d[id].children[j];
                assert(d[c as int].parent == Some(id as usize));
                assert(e[c as int].parent == d[c as int].parent);
            }
        } else {
            assert(e[id] == d[id]);
            assert forall|j: int| 0 <= j < e[id].children.len() implies id < (
            #[trigger] e[id].children[j]) < e.len() && e[e[id].children[j] as int].parent == Some(
                id as usize,
            ) by {
                let c = d[id].children[j];
                assert(d[c as int].parent == Some(id as usize));
                assert(e[c as int].parent == d[c as int].parent);
            }
            if d[id].parent is Some {
                let pp = d[id].parent->0;
                if pp == parent {
                    assert(siblings.contains(id as usize));
                } else {
                    assert(e[pp as int].children == d[pp as int].children);
                }
            }
        }
    }
}

/// Detaching every child of a node keeps the invariant.
pub proof fn lemma_clear_keeps_tree(d: Seq<LiveView>, id: usize)
    requires
        tree_ok(d),
        id < d.len(),
    ensures
        tree_ok(with_children_released(d, id)),
{
    let e = with_children_released(d, id);
    assert forall|x: int| 0 <= x < e.len() implies #[trigger] node_ok(e, x) by {
        assert(node_ok(d, x));
        if x != id {
            assert(e[x].children == d[x].children);
            assert forall|j: int| 0 <= j < e[x].children.len() implies x < (
            #[trigger] e[x].children[j]) < e.len() && e[e[x].children[j] as int].parent == Some(
                x as usize,
            ) by {
                let c = d[x].children[j];
                assert(d[c as int].parent == Some(x as usize));
            }
            if e[x].parent is Some {
                let pp = e[x].parent->0;
                assert(d[x].parent == Some(pp));
                assert(pp != id);
                assert(e[pp as int].children == d[pp as int].children);
            }
        }
    }
}

/// In a list without repeats, the position that holds `x` is where
/// `index_of` finds it.
pub proof fn lemma_only_index(list: Seq<usize>, x: usize, at: int)
    requires
        0 <= at < list.len(),
        list[at] == x,
        list.no_duplicates(),
    ensures
        list.index_of(x) == at,
{
    let found = list.index_of(x);
    assert(0 <= found < list.len() && list[found] == x);
}

/// Inserting something new into a list without repeats leaves it without
/// repeats, holding what it held and the new item.
pub proof fn lemma_insert_facts(s: Seq<usize>, at: int, x: usize)
    requires
        0 <= at <= s.len(),
        s.no_duplicates(),
        !s.contains(x),
    ensures
        s.insert(at, x).no_duplicates(),
        s.insert(at, x).contains(x),
        s.insert(at, x).len() == s.len() + 1,
        forall|y: usize| s.contains(y) ==> #[trigger] s.insert(at, x).contains(y),
        forall|j: int|
            0 <= j < s.len() + 1 ==> (#[trigger] s.insert(at, x)[j]) == x || s.contains(
                s.insert(at, x)[j],
            ),
{
    let t = s.insert(at, x);
    s.insert_ensures(at, x);
    assert(t[at] == x);
    assert forall|y: usize| s.contains(y) implies #[trigger] t.contains(y) by {
        let i = choose|i: int| 0 <= i < s.len() && s[i] == y;
        if i < at {
            assert(t[i] == y);
        } else {
            assert(t[i + 1] == y);
        }
    }
    assert forall|j: int| 0 <= j < s.len() + 1 implies (#[trigger] t[j]) == x || s.contains(
        t[j],
    ) by {
        if j < at {
            assert(t[j] == s[j]);
        } else if j > at {
            assert(t[j] == s[j - 1]);
        }
    }
    assert forall|i: int, j: int| 0 <= i < t.len() && 0 <= j < t.len() && i != j implies t[i]
        != t[j] by {
        let a = if i < at {
            i
        } else {
            i - 1
        };
        let b = if j < at {
            j
        } else {
            j - 1
        };
        if i != at {
            assert(t[i] == s[a]);
        }
        if j != at {
            assert(t[j] == s[b]);
        }
    }
}

/// Removing one item from a list without repeats leaves it without repeats,
/// holding what it held but that item.
pub proof fn lemma_remove_facts(s: Seq<usize>, at: int)
    requires
        0 <= at < s.len(),
        s.no_duplicates(),
    ensures
        s.remove(at).no_duplicates(),
        !s.remove(at).contains(s[at]),
        s.remove(at).len() == s.len() - 1,
        forall|y: usize| s.contains(y) && y != s[at] ==> #[trigger] s.remove(at).contains(y),
        forall|j: int| 0 <= j < s.len() - 1 ==> s.contains(#[trigger] s.remove(at)[j]),
{
    let t = s.remove(at);
    s.remove_ensures(at);
    assert forall|j: int| 0 <= j < t.len() implies s.contains(#[trigger] t[j]) && t[j] != s[at] by {
        if j < at {
            assert(t[j] == s[j]);
        } else {
            assert(t[j] == s[j + 1]);
        }
    }
    assert forall|y: usize| s.contains(y) && y != s[at] implies #[trigger] t.contains(y) by {
        let i = choose|i: int| 0 <= i < s.len() && s[i] == y;
        if i < at {
            assert(t[i] == y);
        } else {
            assert(t[i - 1] == y);
        }
    }
    assert forall|i: int, j: int| 0 <= i < t.len() && 0 <= j < t.len() && i != j implies t[i]
        != t[j] by {
        let a = if i < at {
            i
        } else {
            i + 1
        };
        let b = if j < at {
            j
        } else {
            j + 1
        };
        assert(t[i] == s[a] && t[j] == s[b]);
    }
}

/// Putting something new in the place of one item of a list without repeats
/// leaves it without repeats.
pub proof fn lemma_update_facts(s: Seq<usize>, at: int, x: usize)
    requires
        0 <= at < s.len(),
        s.no_duplicates(),
        !s.contains(x),
    ensures
        s.update(at, x).no_duplicates(),
        s.update(at, x).contains(x),
        !s.update(at, x).contains(s[at]),
        forall|y: usize| s.contains(y) && y != s[at] ==> #[trigger] s.update(at, x).contains(y),
        forall|j: int|
            0 <= j < s.len() ==> (#[trigger] s.update(at, x)[j]) == x || s.contains(
                s.update(at, x)[j],
            ),
{
    let t = s.update(at, x);
    assert(t[at] == x);
    assert forall|y: usize| s.contains(y) && y != s[at] implies #[trigger] t.contains(y) by {
        let i = choose|i: int| 0 <= i < s.len() && s[i] == y;
        assert(t[i] == y);
    }
    assert forall|j: int| 0 <= j < s.len() implies (#[trigger] t[j]) == x || s.contains(t[j]) by {
        if j != at {
            assert(t[j] == s[j]);
        }
    }
    if t.contains(s[at]) {
        let i = choose|i: int| 0 <= i < t.len() && t[i] == s[at];
        assert(i != at);
        assert(s[i] == s[at]);
    }
}

} // verus!
