//! How the execution of a list of patches composes: part after part, and
//! what the patches of one element's attributes and surplus children leave.

use crate::apply::{cursor, patched, reachable, released_last, resolved, run, ApplyError};
use crate::attribute::{distinct_keys, lemma_position_is, lemma_position_of, lookup, position_of};
use crate::attribute::{AttrKind, AttrValueView, AttrView};
use crate::diff::{attribute_edits, fresh_edits, stale_edits, OperationView, PatchView};
use crate::diff_proofs::{ascending, within};
use crate::tree::{lemma_only_index, lemma_release_keeps_tree, node_ok, stored, tree_ok};
use crate::tree::{without_child, LiveView};
use vstd::prelude::*;

verus! {

/// The patches, each bound to the node that `order` holds at its address.
pub open spec fn bind(ps: Seq<PatchView>, order: Seq<usize>) -> Seq<PatchView> {
    Seq::new(
        ps.len(),
        |i: int| PatchView { node: order[ps[i].node] as int, operation: ps[i].operation },
    )
}

/// The edits, each as a patch bound to the live node `x`.
pub open spec fn bound_to(edits: Seq<OperationView>, x: int) -> Seq<PatchView> {
    Seq::new(edits.len(), |i: int| PatchView { node: x, operation: edits[i] })
}

/// What all of the bound patches `ps` leave.
pub open spec fn ran(d: Seq<LiveView>, ps: Seq<PatchView>) -> (Seq<LiveView>, Option<ApplyError>) {
    run(d, ps, ps.len())
}

/// What the first `n` patches leave depends on those patches alone.
pub proof fn lemma_run_prefix(d: Seq<LiveView>, s: Seq<PatchView>, t: Seq<PatchView>, n: nat)
    requires
        n <= s.len(),
        n <= t.len(),
        forall|i: int| 0 <= i < n ==> s[i] == t[i],
    ensures
        run(d, s, n) == run(d, t, n),
    decreases n,
{
    if n > 0 {
        lemma_run_prefix(d, s, t, (n - 1) as nat);
    }
}

/// `lemma_ran_concat` for the first `m` patches of the second list.
proof fn lemma_run_concat(d: Seq<LiveView>, a: Seq<PatchView>, b: Seq<PatchView>, m: nat)
    requires
        m <= b.len(),
    ensures
        run(d, a + b, a.len() + m) == if ran(d, a).1 is Some {
            ran(d, a)
        } else {
            run(ran(d, a).0, b, m)
        },
    decreases m,
{
    if m == 0 {
        lemma_run_prefix(d, a + b, a, a.len());
    } else {
        lemma_run_concat(d, a, b, (m - 1) as nat);
        assert((a + b)[a.len() + m - 1] == b[m - 1]);
    }
}

/// Executing two lists one after the other is executing the first and, if
/// it did not fail, the second on what it left.
pub proof fn lemma_ran_concat(d: Seq<LiveView>, a: Seq<PatchView>, b: Seq<PatchView>)
    ensures
        ran(d, a + b) == if ran(d, a).1 is Some {
            ran(d, a)
        } else {
            ran(ran(d, a).0, b)
        },
{
    lemma_run_concat(d, a, b, b.len());
}

/// Binding distributes over joining.
pub proof fn lemma_bind_concat(a: Seq<PatchView>, b: Seq<PatchView>, order: Seq<usize>)
    ensures
        bind(a + b, order) == bind(a, order) + bind(b, order),
{
    assert(bind(a + b, order) =~= bind(a, order) + bind(b, order));
}

/// Where the addresses ascend and all lie in the walk, the walk binds each
/// patch to the node that it meets at the patch's address.
pub proof fn lemma_resolved_is_bind(ps: Seq<PatchView>, order: Seq<usize>)
    requires
        ascending(ps),
        within(ps, 0, order.len() - 1),
    ensures
        reachable(order, ps),
        resolved(order, ps) == bind(ps, order),
{
    lemma_cursor_is_address(ps, ps.len() - 1);
    assert forall|i: int| 0 <= i < ps.len() implies resolved(order, ps)[i] == bind(ps, order)[i] by {
        lemma_cursor_is_address(ps, i);
    }
    assert(resolved(order, ps) =~= bind(ps, order));
}

/// Where the addresses ascend from 0 on, the walk stands at the address of
/// the patch that was resolved last.
proof fn lemma_cursor_is_address(ps: Seq<PatchView>, i: int)
    requires
        ascending(ps),
        forall|j: int| 0 <= j < ps.len() ==> 0 <= (#[trigger] ps[j]).node,
        -1 <= i < ps.len(),
    ensures
        i >= 0 ==> cursor(ps, i) == ps[i].node,
        i < 0 ==> cursor(ps, i) == 0,
    decreases i + 1,
{
    if i >= 0 {
        lemma_cursor_is_address(ps, i - 1);
        if i > 0 {
            assert(ps[i - 1].node <= ps[i].node);
        }
    }
}

/// What the first `k` attribute edits leave stored, starting from `m`.
pub open spec fn edited(
    m: Map<(AttrKind, Seq<char>), AttrValueView>,
    edits: Seq<OperationView>,
    k: nat,
) -> Map<(AttrKind, Seq<char>), AttrValueView>
    decreases k,
{
    if k == 0 || k > edits.len() {
        m
    } else {
        let before = edited(m, edits, (k - 1) as nat);
        match edits[k - 1] {
            OperationView::SetAttribute(a) => before.insert((a.kind, a.key), a.value),
            OperationView::RemoveAttribute(a) => before.remove((a.kind, a.key)),
            _ => before,
        }
    }
}

/// Every edit of the list sets or removes an attribute.
pub open spec fn attribute_only(edits: Seq<OperationView>) -> bool {
    forall|i: int|
        0 <= i < edits.len() ==> (#[trigger] edits[i]) is SetAttribute || edits[i] is RemoveAttribute
}

/// Attribute edits on an element change what is stored on it and nothing
/// else, and do not fail.
pub proof fn lemma_run_attribute_edits(
    e: Seq<LiveView>,
    x: usize,
    edits: Seq<OperationView>,
    k: nat,
)
    requires
        x < e.len(),
        e[x as int].text is None,
        attribute_only(edits),
        k <= edits.len(),
    ensures
        run(e, bound_to(edits, x as int), k) == (
            e.update(
                x as int,
                LiveView { attributes: edited(e[x as int].attributes, edits, k), ..e[x as int] },
            ),
            None::<ApplyError>,
        ),
    decreases k,
{
    if k == 0 {
        assert(e.update(
            x as int,
            LiveView { attributes: edited(e[x as int].attributes, edits, k), ..e[x as int] },
        ) =~= e);
    } else {
        lemma_run_attribute_edits(e, x, edits, (k - 1) as nat);
        let before = run(e, bound_to(edits, x as int), (k - 1) as nat).0;
        assert(edits[k - 1] is SetAttribute || edits[k - 1] is RemoveAttribute);
        let after = patched(before, x, edits[k - 1]).0;
        assert(after =~= e.update(
            x as int,
            LiveView { attributes: edited(e[x as int].attributes, edits, k), ..e[x as int] },
        ));
    }
}

/// What is stored under `kind` and `key` once the attributes `attrs` were
/// set: the value of the attribute of that name, if its kind is `kind`.
pub open spec fn held(attrs: Seq<AttrView>, kind: AttrKind, key: Seq<char>) -> Option<
    AttrValueView,
> {
    match lookup(attrs, key) {
        Some(a) => if a.kind == kind {
            Some(a.value)
        } else {
            None
        },
        None => None,
    }
}

/// The map that holds exactly what `held` says.
pub open spec fn holds_as(
    m: Map<(AttrKind, Seq<char>), AttrValueView>,
    attrs: Seq<AttrView>,
    kind: AttrKind,
    key: Seq<char>,
) -> bool {
    match held(attrs, kind, key) {
        Some(v) => m.contains_key((kind, key)) && m[(kind, key)] == v,
        None => !m.contains_key((kind, key)),
    }
}

/// In a list without two attributes of one name, the attribute at a position
/// is the one that its name finds.
pub proof fn lemma_lookup_distinct(attrs: Seq<AttrView>, i: int)
    requires
        distinct_keys(attrs),
        0 <= i < attrs.len(),
    ensures
        position_of(attrs, attrs[i].key) == i,
        lookup(attrs, attrs[i].key) == Some(attrs[i]),
{
    lemma_position_is(attrs, attrs[i].key, i);
}

/// Setting attributes of different names stores each under its kind and
/// name, and nothing else.
pub proof fn lemma_stored_holds(attrs: Seq<AttrView>, kind: AttrKind, key: Seq<char>)
    requires
        distinct_keys(attrs),
    ensures
        holds_as(stored(attrs), attrs, kind, key),
    decreases attrs.len(),
{
    lemma_position_of(attrs, key);
    if attrs.len() > 0 {
        let init = attrs.drop_last();
        let last = attrs.last();
        assert forall|i: int, j: int| 0 <= i < j < init.len() implies (#[trigger] init[i]).key != (
        #[trigger] init[j]).key by {
            assert(init[i] == attrs[i] && init[j] == attrs[j]);
        }
        lemma_stored_holds(init, kind, key);
        lemma_position_of(init, key);
        let p = position_of(init, key);
        if last.key == key {
            lemma_lookup_distinct(attrs, attrs.len() - 1);
            if p < init.len() {
                assert(init[p] == attrs[p]);
                assert(attrs[p].key != attrs[attrs.len() - 1].key);
            }
        } else {
            if p < init.len() {
                assert(init[p] == attrs[p]);
                lemma_lookup_distinct(attrs, p);
            } else {
                let q = position_of(attrs, key);
                if q < attrs.len() {
                    assert(q < init.len());
                    assert(init[q] == attrs[q]);
                }
            }
        }
    }
}

/// No name is held with one kind on one side and another kind on the other.
pub open spec fn kinds_agree(old: Seq<AttrView>, new: Seq<AttrView>) -> bool {
    forall|key: Seq<char>|
        (#[trigger] lookup(old, key)) is Some && lookup(new, key) is Some ==> lookup(old, key)->0.kind
            == lookup(new, key)->0.kind
}

/// What all of the edits leave stored, starting from `m`.
pub open spec fn edited_by(
    m: Map<(AttrKind, Seq<char>), AttrValueView>,
    edits: Seq<OperationView>,
) -> Map<(AttrKind, Seq<char>), AttrValueView> {
    edited(m, edits, edits.len())
}

/// What the first `k` edits leave depends on those edits alone.
proof fn lemma_edited_prefix(
    m: Map<(AttrKind, Seq<char>), AttrValueView>,
    s: Seq<OperationView>,
    t: Seq<OperationView>,
    k: nat,
)
    requires
        k <= s.len(),
        k <= t.len(),
        forall|i: int| 0 <= i < k ==> s[i] == t[i],
    ensures
        edited(m, s, k) == edited(m, t, k),
    decreases k,
{
    if k > 0 {
        lemma_edited_prefix(m, s, t, (k - 1) as nat);
    }
}

/// Two lists of edits, one after the other, leave what the second leaves of
/// what the first left.
proof fn lemma_edited_concat(
    m: Map<(AttrKind, Seq<char>), AttrValueView>,
    a: Seq<OperationView>,
    b: Seq<OperationView>,
    k: nat,
)
    requires
        k <= b.len(),
    ensures
        edited(m, a + b, a.len() + k) == edited(edited_by(m, a), b, k),
    decreases k,
{
    if k == 0 {
        lemma_edited_prefix(m, a + b, a, a.len());
    } else {
        lemma_edited_concat(m, a, b, (k - 1) as nat);
        assert((a + b)[a.len() + k - 1] == b[k - 1]);
    }
}

/// An edit added at the end does not change what the edits before it leave.
proof fn lemma_edited_push(
    m: Map<(AttrKind, Seq<char>), AttrValueView>,
    s: Seq<OperationView>,
    x: OperationView,
)
    ensures
        edited(m, s.push(x), s.len()) == edited_by(m, s),
{
    lemma_edited_prefix(m, s.push(x), s, s.len());
}

/// Once the first `k` attributes of `old` were looked at, what is stored
/// under a name among them is what `new` asks for, and the rest is as `old`
/// left it.
proof fn lemma_stale_slot(
    old: Seq<AttrView>,
    new: Seq<AttrView>,
    k: nat,
    kind: AttrKind,
    key: Seq<char>,
)
    requires
        distinct_keys(old),
        distinct_keys(new),
        kinds_agree(old, new),
        k <= old.len(),
    ensures
        ({
            let m = edited_by(stored(old), stale_edits(old, new, k));
            if position_of(old, key) < k {
                holds_as(m, new, kind, key)
            } else {
                holds_as(m, old, kind, key)
            }
        }),
    decreases k,
{
    lemma_position_of(old, key);
    lemma_position_of(new, key);
    if k == 0 {
        lemma_stored_holds(old, kind, key);
    } else {
        lemma_stale_slot(old, new, (k - 1) as nat, kind, key);
        let o = old[k - 1];
        lemma_lookup_distinct(old, k - 1);
        let before = stale_edits(old, new, (k - 1) as nat);
        lemma_position_of(new, o.key);
        match lookup(new, o.key) {
            None => {
                lemma_edited_push(stored(old), before, OperationView::RemoveAttribute(o));
            },
            Some(now) => {
                assert(lookup(old, o.key) is Some);
                assert(now.kind == o.kind);
                assert(now.key == o.key);
                if now != o {
                    lemma_edited_push(stored(old), before, OperationView::SetAttribute(now));
                }
            },
        }
    }
}

/// Once the first `k` attributes of `new` were looked at as well, what is
/// stored under a name that `old` holds or that is among them is what `new`
/// asks for, and nothing is stored under any other name.
proof fn lemma_fresh_slot(
    old: Seq<AttrView>,
    new: Seq<AttrView>,
    k: nat,
    kind: AttrKind,
    key: Seq<char>,
)
    requires
        distinct_keys(old),
        distinct_keys(new),
        kinds_agree(old, new),
        k <= new.len(),
    ensures
        ({
            let stale = edited_by(stored(old), stale_edits(old, new, old.len()));
            let m = edited_by(stale, fresh_edits(old, new, k));
            if lookup(old, key) is Some || position_of(new, key) < k {
                holds_as(m, new, kind, key)
            } else {
                !m.contains_key((kind, key))
            }
        }),
    decreases k,
{
    lemma_position_of(old, key);
    lemma_position_of(new, key);
    let stale = edited_by(stored(old), stale_edits(old, new, old.len()));
    if k == 0 {
        lemma_stale_slot(old, new, old.len(), kind, key);
    } else {
        lemma_fresh_slot(old, new, (k - 1) as nat, kind, key);
        let x = new[k - 1];
        lemma_lookup_distinct(new, k - 1);
        lemma_position_of(old, x.key);
        let before = fresh_edits(old, new, (k - 1) as nat);
        if lookup(old, x.key) is None {
            lemma_edited_push(stale, before, OperationView::SetAttribute(x));
        }
    }
}

/// The attribute edits of a diff turn what `old` stored into what `new`
/// stores, where neither side holds a name twice and no name changes its
/// kind.
pub proof fn lemma_attribute_edits_reconcile(old: Seq<AttrView>, new: Seq<AttrView>)
    requires
        distinct_keys(old),
        distinct_keys(new),
        kinds_agree(old, new),
    ensures
        edited_by(stored(old), attribute_edits(old, new)) == stored(new),
        attribute_only(attribute_edits(old, new)),
{
    let stale = stale_edits(old, new, old.len());
    let fresh = fresh_edits(old, new, new.len());
    lemma_edited_concat(stored(old), stale, fresh, fresh.len());
    let m = edited_by(stored(old), attribute_edits(old, new));
    assert((stale + fresh).len() == stale.len() + fresh.len());
    assert(m == edited_by(edited_by(stored(old), stale), fresh));
    assert forall|slot: (AttrKind, Seq<char>)|
        (#[trigger] m.dom().contains(slot)) == stored(new).dom().contains(slot) && (m.dom().contains(
            slot,
        ) ==> m[slot] == stored(new)[slot]) by {
        lemma_fresh_slot(old, new, new.len(), slot.0, slot.1);
        lemma_stored_holds(new, slot.0, slot.1);
        lemma_position_of(new, slot.1);
        assert(slot == (slot.0, slot.1));
    }
    assert(m =~= stored(new));
    lemma_stale_only(old, new, old.len());
    lemma_fresh_only(old, new, new.len());
}

/// The edits for the attributes of `old` set or remove attributes.
proof fn lemma_stale_only(old: Seq<AttrView>, new: Seq<AttrView>, k: nat)
    ensures
        attribute_only(stale_edits(old, new, k)),
    decreases k,
{
    if k > 0 && k <= old.len() {
        lemma_stale_only(old, new, (k - 1) as nat);
    }
}

/// The edits for the attributes of `new` set attributes.
proof fn lemma_fresh_only(old: Seq<AttrView>, new: Seq<AttrView>, k: nat)
    ensures
        attribute_only(fresh_edits(old, new, k)),
    decreases k,
{
    if k > 0 && k <= new.len() {
        lemma_fresh_only(old, new, (k - 1) as nat);
    }
}

/// Detaching the last `k` children of an element leaves its first children
/// in place, and leaves every node its text, tag, attributes and, but for
/// the element, its children.
pub proof fn lemma_released_last(e: Seq<LiveView>, p: usize, k: nat)
    requires
        tree_ok(e),
        p < e.len(),
        k <= e[p as int].children.len(),
    ensures
        ({
            let r = released_last(e, p, k);
            &&& tree_ok(r)
            &&& r.len() == e.len()
            &&& r[p as int].children == e[p as int].children.take(e[p as int].children.len() - k)
            &&& forall|y: int|
                0 <= y < e.len() ==> (#[trigger] r[y]).text == e[y].text && r[y].tag == e[y].tag
                    && r[y].attributes == e[y].attributes && (y != p ==> r[y].children
                    == e[y].children)
            &&& r[p as int].parent == e[p as int].parent
        }),
    decreases k,
{
    if k == 0 {
        assert(e[p as int].children.take(e[p as int].children.len() as int)
            =~= e[p as int].children);
    } else {
        lemma_released_last(e, p, (k - 1) as nat);
        let before = released_last(e, p, (k - 1) as nat);
        let kids = before[p as int].children;
        let last = kids.last();
        assert(node_ok(before, p as int));
        assert(kids[kids.len() - 1] == last);
        assert(before[last as int].parent == Some(p));
        lemma_release_keeps_tree(before, p, last);
        lemma_only_index(kids, last, kids.len() - 1);
        let r = without_child(before, p, last);
        assert(r[p as int].children =~= e[p as int].children.take(
            e[p as int].children.len() - k,
        ));
    }
}

} // verus!
