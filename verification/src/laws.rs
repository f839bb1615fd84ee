use vstd::prelude::*;

use crate::diff::{
    adds_upto, attr_adds, attr_changed, attr_removes, count_patch, diff_children, diff_spec,
    is_listener, own_patches, removes_upto,
};
use crate::node::{
    attrs_wf, children_wf, lemma_children_obs_eq, lemma_children_wf, lemma_obs_eq_refl, lookup,
    lookup_at, node_size, node_wf, obs_eq, subtree_sizes, AttrView, NodeView,
};
use crate::apply::{
    apply_attr_patches, apply_children_spec, apply_node_spec, lemma_lookup_remove,
    lemma_lookup_upsert, remove_all, step_count, upsert_all,
};
use crate::patch::PatchView;

verus! {

/// `lookup` starting at `i` finds entry `j` when no entry in between shares
/// its name.
proof fn lemma_lookup_at_finds(s: Seq<AttrView>, i: int, j: int)
    requires
        0 <= i <= j < s.len(),
        forall|k: int| i <= k < j ==> s[k].name != s[j].name,
    ensures
        lookup_at(s, i, s[j].name) == Some(s[j].value),
    decreases j - i,
{
    if i < j {
        lemma_lookup_at_finds(s, i + 1, j);
    }
}

/// In a well-formed collection, every attribute is found under its own name.
pub proof fn lemma_lookup_self(s: Seq<AttrView>, j: int)
    requires
        attrs_wf(s),
        0 <= j < s.len(),
    ensures
        lookup(s, s[j].name) == Some(s[j].value),
{
    lemma_lookup_at_finds(s, 0, j);
}

/// When every new attribute is already bound unchanged in the old
/// collection, no add patch entry arises.
proof fn lemma_adds_empty(a1: Seq<AttrView>, a2: Seq<AttrView>, i: int, listeners: bool)
    requires
        forall|j: int| 0 <= j < a2.len() ==> lookup(a1, a2[j].name) == Some(a2[j].value),
    ensures
        adds_upto(a1, a2, i, listeners) == Seq::<AttrView>::empty(),
    decreases i,
{
    if 0 < i <= a2.len() {
        lemma_adds_empty(a1, a2, i - 1, listeners);
        assert(!attr_changed(a1, a2[i - 1]));
        assert(adds_upto(a1, a2, i, listeners) =~= Seq::<AttrView>::empty());
    }
}

/// When every old attribute's name is still bound in the new collection, no
/// remove patch entry arises.
proof fn lemma_removes_empty(a1: Seq<AttrView>, a2: Seq<AttrView>, i: int, listeners: bool)
    requires
        forall|j: int| 0 <= j < a1.len() ==> lookup(a2, a1[j].name) is Some,
    ensures
        removes_upto(a1, a2, i, listeners) == Seq::<Seq<char>>::empty(),
    decreases i,
{
    if 0 < i <= a1.len() {
        lemma_removes_empty(a1, a2, i - 1, listeners);
        assert(removes_upto(a1, a2, i, listeners) =~= Seq::<Seq<char>>::empty());
    }
}

/// Equal well-formed attribute collections yield no attribute or listener
/// patch at all.
pub proof fn lemma_own_patches_same(tag: Seq<char>, a: Seq<AttrView>, idx: int)
    requires
        attrs_wf(a),
    ensures
        own_patches(tag, a, a, idx) == Seq::<PatchView>::empty(),
{
    assert forall|j: int| 0 <= j < a.len() implies lookup(a, a[j].name) == Some(a[j].value) by {
        lemma_lookup_self(a, j);
    }
    lemma_adds_empty(a, a, a.len() as int, false);
    lemma_adds_empty(a, a, a.len() as int, true);
    lemma_removes_empty(a, a, a.len() as int, false);
    lemma_removes_empty(a, a, a.len() as int, true);
    assert(own_patches(tag, a, a, idx) =~= Seq::<PatchView>::empty());
}

/// Positionally shared children that are equal and well-formed contribute no
/// patches.
pub proof fn lemma_diff_children_shared_same(
    cs1: Seq<NodeView>,
    cs2: Seq<NodeView>,
    k: int,
    idx: int,
)
    requires
        forall|i: int|
            0 <= i < cs1.len() && i < cs2.len() ==> cs1[i] == cs2[i] && node_wf(#[trigger] cs1[i]),
    ensures
        diff_children(cs1, cs2, k, idx) == Seq::<PatchView>::empty(),
    decreases cs1, cs1.len() - k,
{
    if 0 <= k && k < cs1.len() && k < cs2.len() {
        lemma_diff_same_empty(cs1[k], idx);
        lemma_diff_children_shared_same(cs1, cs2, k + 1, idx + node_size(cs1[k]));
        assert(diff_children(cs1, cs2, k, idx) =~= Seq::<PatchView>::empty());
    }
}

/// Diffing any well-formed tree against itself yields an empty edit script.
pub proof fn lemma_diff_same_empty(t: NodeView, idx: int)
    requires
        node_wf(t),
    ensures
        diff_spec(t, t, idx) == Seq::<PatchView>::empty(),
    decreases t, 0int,
{
    match t {
        NodeView::Text { .. } => {}
        NodeView::Element { tag, attrs, children } => {
            lemma_own_patches_same(tag, attrs, idx);
            lemma_children_wf(children, children.len() as int);
            lemma_diff_children_shared_same(children, children, 0, idx + 1);
            assert(diff_spec(t, t, idx) =~= Seq::<PatchView>::empty());
        }
    }
}

/// A tag change (element tag differs, or element against text) yields
/// exactly one patch: a replacement of the whole subtree at the node's own
/// index, with nothing for any descendant, however large the subtrees are.
pub proof fn lemma_tag_change_replaces(old_node: NodeView, new_node: NodeView, idx: int)
    requires
        !(old_node is Text && new_node is Text),
        !(old_node is Element && new_node is Element && old_node->Element_tag
            == new_node->Element_tag),
    ensures
        diff_spec(old_node, new_node, idx) == seq![
            PatchView::Replace(crate::node::tag_of(old_node), idx, new_node),
        ],
{
}

/// The single-attribute adds set: entry `p` alone changed, so scanning the
/// new attributes collects exactly that entry once past it.
proof fn lemma_adds_single(a1: Seq<AttrView>, a2: Seq<AttrView>, p: int, i: int, listeners: bool)
    requires
        attrs_wf(a1),
        a1.len() == a2.len(),
        i <= a2.len(),
        0 <= p < a1.len(),
        forall|j: int| 0 <= j < a1.len() && j != p ==> a1[j] == a2[j],
        a1[p].name == a2[p].name,
        !is_listener(a2[p]),
        a1[p].value != a2[p].value,
    ensures
        adds_upto(a1, a2, i, listeners) == if !listeners && i > p {
            seq![a2[p]]
        } else {
            Seq::<AttrView>::empty()
        },
    decreases i,
{
    if 0 < i <= a2.len() {
        lemma_adds_single(a1, a2, p, i - 1, listeners);
        if i - 1 == p {
            lemma_lookup_self(a1, p);
            assert(attr_changed(a1, a2[p]));
            if !listeners {
                assert(adds_upto(a1, a2, i, listeners) =~= seq![a2[p]]);
            } else {
                assert(adds_upto(a1, a2, i, listeners) =~= Seq::<AttrView>::empty());
            }
        } else {
            lemma_lookup_self(a1, i - 1);
            assert(!attr_changed(a1, a2[i - 1]));
            if !listeners && i > p {
                assert(adds_upto(a1, a2, i, listeners) =~= seq![a2[p]]);
            } else {
                assert(adds_upto(a1, a2, i, listeners) =~= Seq::<AttrView>::empty());
            }
        }
    }
}

/// Minimality of attribute patches: when two well-formed elements differ
/// only in the plain value of one attribute and are otherwise identical,
/// the edit script is exactly one add-attributes patch carrying that one
/// attribute, and no remove, replace or child patch.
pub proof fn lemma_attr_minimality(
    tag: Seq<char>,
    a1: Seq<AttrView>,
    a2: Seq<AttrView>,
    cs: Seq<NodeView>,
    p: int,
    idx: int,
)
    requires
        attrs_wf(a1),
        attrs_wf(a2),
        children_wf(cs, cs.len() as int),
        a1.len() == a2.len(),
        0 <= p < a1.len(),
        forall|j: int| 0 <= j < a1.len() && j != p ==> a1[j] == a2[j],
        a1[p].name == a2[p].name,
        a1[p].value is Plain,
        a2[p].value is Plain,
        a1[p].value != a2[p].value,
    ensures
        diff_spec(
            NodeView::Element { tag, attrs: a1, children: cs },
            NodeView::Element { tag, attrs: a2, children: cs },
            idx,
        ) == seq![PatchView::AddAttributes(tag, idx, seq![a2[p]])],
{
    assert forall|j: int| 0 <= j < a1.len() implies lookup(a2, a1[j].name) is Some by {
        lemma_lookup_self(a2, j);
        assert(a1[j].name == a2[j].name);
    }
    lemma_removes_empty(a1, a2, a1.len() as int, false);
    lemma_removes_empty(a1, a2, a1.len() as int, true);
    lemma_adds_single(a1, a2, p, a2.len() as int, false);
    lemma_adds_single(a1, a2, p, a2.len() as int, true);
    lemma_children_wf(cs, cs.len() as int);
    lemma_diff_children_shared_same(cs, cs, 0, idx + 1);
    assert(own_patches(tag, a1, a2, idx) =~= seq![PatchView::AddAttributes(tag, idx, seq![a2[p]])]);
    assert(diff_spec(
        NodeView::Element { tag, attrs: a1, children: cs },
        NodeView::Element { tag, attrs: a2, children: cs },
        idx,
    ) =~= seq![PatchView::AddAttributes(tag, idx, seq![a2[p]])]);
}

/// Children growth or shrink: when two well-formed elements agree on tag and
/// attributes and on every positionally shared child, and only the child
/// counts differ, the edit script is exactly the one append-children (when
/// the new node grew) or truncate-children (when it shrank) patch for the
/// parent, and nothing for the shared region.
pub proof fn lemma_children_resize(
    tag: Seq<char>,
    attrs: Seq<AttrView>,
    cs1: Seq<NodeView>,
    cs2: Seq<NodeView>,
    idx: int,
)
    requires
        attrs_wf(attrs),
        cs1.len() != cs2.len(),
        forall|i: int|
            0 <= i < cs1.len() && i < cs2.len() ==> cs1[i] == cs2[i] && node_wf(#[trigger] cs1[i]),
    ensures
        diff_spec(
            NodeView::Element { tag, attrs, children: cs1 },
            NodeView::Element { tag, attrs, children: cs2 },
            idx,
        ) == count_patch(tag, idx, cs1, cs2),
        cs2.len() > cs1.len() ==> count_patch(tag, idx, cs1, cs2) == seq![
            PatchView::AppendChildren(tag, idx, cs2.skip(cs1.len() as int)),
        ],
        cs2.len() < cs1.len() ==> count_patch(tag, idx, cs1, cs2) == seq![
            PatchView::TruncateChildren(tag, idx, cs2.len() as int),
        ],
{
    lemma_own_patches_same(tag, attrs, idx);
    lemma_diff_children_shared_same(cs1, cs2, 0, idx + 1);
    assert(diff_spec(
        NodeView::Element { tag, attrs, children: cs1 },
        NodeView::Element { tag, attrs, children: cs2 },
        idx,
    ) =~= count_patch(tag, idx, cs1, cs2));
}

/// Index stability: in a root whose first child's subtree holds two nodes,
/// the second child's edit script is computed at depth-first index 3,
/// whatever was changed inside the first child's subtree, and the two
/// children's scripts stand side by side in that order.
pub proof fn lemma_index_stability(
    c0: NodeView,
    c1: NodeView,
    d0: NodeView,
    d1: NodeView,
    idx: int,
)
    requires
        node_size(c0) == 2,
    ensures
        diff_children(seq![c0, c1], seq![d0, d1], 0, idx + 1) == diff_spec(c0, d0, idx + 1)
            + diff_spec(c1, d1, idx + 3),
{
    let olds = seq![c0, c1];
    let news = seq![d0, d1];
    assert(diff_children(olds, news, 2, idx + 3 + node_size(c1)) =~= Seq::<PatchView>::empty());
    assert(diff_children(olds, news, 1, idx + 3) =~= diff_spec(c1, d1, idx + 3) + Seq::<
        PatchView,
    >::empty());
    assert(diff_children(olds, news, 0, idx + 1) =~= diff_spec(c0, d0, idx + 1) + diff_spec(
        c1,
        d1,
        idx + 3,
    ));
}

/// An empty edit script leaves every subtree exactly as it is.
pub proof fn lemma_apply_empty(live: NodeView, idx: int)
    ensures
        apply_node_spec(live, Seq::<PatchView>::empty(), idx) == Some(
            (live, Seq::<PatchView>::empty()),
        ),
    decreases live, 1int,
{
    match live {
        NodeView::Text { .. } => {}
        NodeView::Element { tag, attrs, children } => {
            lemma_apply_children_empty(children, 0, idx + 1);
            assert(children.skip(0) =~= children);
            assert((NodeView::Element { tag, attrs, children: children.skip(0) }) =~= live);
        }
    }
}

/// An empty edit script leaves every child suffix exactly as it is.
proof fn lemma_apply_children_empty(cs: Seq<NodeView>, k: int, idx: int)
    requires
        0 <= k <= cs.len(),
    ensures
        apply_children_spec(cs, Seq::<PatchView>::empty(), k, idx) == Some(
            (cs.skip(k), Seq::<PatchView>::empty()),
        ),
    decreases cs, cs.len() - k,
{
    if k >= cs.len() {
        assert(cs.skip(k) =~= Seq::<NodeView>::empty());
    } else {
        lemma_apply_empty(cs[k], idx);
        lemma_apply_children_empty(cs, k + 1, idx + node_size(cs[k]));
        assert(seq![cs[k]] + cs.skip(k + 1) =~= cs.skip(k));
    }
}

/// Round trip of a no-op diff: applying the (empty) edit script of a
/// well-formed tree against itself gives that tree back, with nothing left
/// over.
pub proof fn lemma_round_trip_same(t: NodeView, idx: int)
    requires
        node_wf(t),
    ensures
        apply_node_spec(t, diff_spec(t, t, idx), idx) == Some((t, Seq::<PatchView>::empty())),
{
    lemma_diff_same_empty(t, idx);
    lemma_apply_empty(t, idx);
}

} // verus!

verus! {

/// The value that the last of the first `i` entries of `adds` named `k`
/// carries, or `dflt` when none is.
pub open spec fn last_bound(adds: Seq<AttrView>, i: int, k: Seq<char>, dflt: Option<crate::node::ValView>) -> Option<crate::node::ValView>
    decreases i,
{
    if i <= 0 || i > adds.len() {
        dflt
    } else if adds[i - 1].name == k {
        Some(adds[i - 1].value)
    } else {
        last_bound(adds, i - 1, k, dflt)
    }
}

/// Whether one of the first `i` names is `k`.
pub open spec fn names_hold(names: Seq<Seq<char>>, i: int, k: Seq<char>) -> bool
    decreases i,
{
    if i <= 0 || i > names.len() {
        false
    } else {
        names[i - 1] == k || names_hold(names, i - 1, k)
    }
}

/// A chain of upserts binds under each name the last attribute carrying it,
/// and elsewhere what the collection bound before.
proof fn lemma_upsert_all_lookup(s: Seq<AttrView>, adds: Seq<AttrView>, i: int, k: Seq<char>)
    requires
        0 <= i <= adds.len(),
    ensures
        lookup(upsert_all(s, adds, i), k) == last_bound(adds, i, k, lookup(s, k)),
    decreases i,
{
    if i > 0 {
        lemma_upsert_all_lookup(s, adds, i - 1, k);
        lemma_lookup_upsert(upsert_all(s, adds, i - 1), adds[i - 1], k);
    }
}

/// A chain of removals unbinds exactly the carried names.
proof fn lemma_remove_all_lookup(s: Seq<AttrView>, names: Seq<Seq<char>>, i: int, k: Seq<char>)
    requires
        0 <= i <= names.len(),
    ensures
        lookup(remove_all(s, names, i), k) == if names_hold(names, i, k) {
            None::<crate::node::ValView>
        } else {
            lookup(s, k)
        },
    decreases i,
{
    if i > 0 {
        lemma_remove_all_lookup(s, names, i - 1, k);
        lemma_lookup_remove(remove_all(s, names, i - 1), names[i - 1], k);
    }
}

/// The value that the diff's add set of one class binds under `k`: the last
/// changed attribute of that class and name among the first `i` new ones.
pub open spec fn changed_bound(
    a1: Seq<AttrView>,
    a2: Seq<AttrView>,
    i: int,
    listeners: bool,
    k: Seq<char>,
    dflt: Option<crate::node::ValView>,
) -> Option<crate::node::ValView>
    decreases i,
{
    if i <= 0 || i > a2.len() {
        dflt
    } else if a2[i - 1].name == k && is_listener(a2[i - 1]) == listeners && attr_changed(
        a1,
        a2[i - 1],
    ) {
        Some(a2[i - 1].value)
    } else {
        changed_bound(a1, a2, i - 1, listeners, k, dflt)
    }
}

/// Whether the diff's remove set of one class holds `k`: some old attribute
/// of that class is named `k` and the new collection does not bind `k`.
pub open spec fn class_removed(
    a1: Seq<AttrView>,
    a2: Seq<AttrView>,
    i: int,
    listeners: bool,
    k: Seq<char>,
) -> bool
    decreases i,
{
    if i <= 0 || i > a1.len() {
        false
    } else {
        (a1[i - 1].name == k && is_listener(a1[i - 1]) == listeners && lookup(
            a2,
            a1[i - 1].name,
        ) is None) || class_removed(a1, a2, i - 1, listeners, k)
    }
}

/// `last_bound` reads only the first `i` entries.
proof fn lemma_last_bound_prefix(
    xs: Seq<AttrView>,
    ys: Seq<AttrView>,
    i: int,
    k: Seq<char>,
    dflt: Option<crate::node::ValView>,
)
    requires
        0 <= i <= xs.len(),
        i <= ys.len(),
        forall|j: int| 0 <= j < i ==> xs[j] == ys[j],
    ensures
        last_bound(xs, i, k, dflt) == last_bound(ys, i, k, dflt),
    decreases i,
{
    if i > 0 {
        lemma_last_bound_prefix(xs, ys, i - 1, k, dflt);
    }
}

/// `names_hold` reads only the first `i` entries.
proof fn lemma_names_hold_prefix(xs: Seq<Seq<char>>, ys: Seq<Seq<char>>, i: int, k: Seq<char>)
    requires
        0 <= i <= xs.len(),
        i <= ys.len(),
        forall|j: int| 0 <= j < i ==> xs[j] == ys[j],
    ensures
        names_hold(xs, i, k) == names_hold(ys, i, k),
    decreases i,
{
    if i > 0 {
        lemma_names_hold_prefix(xs, ys, i - 1, k);
    }
}

/// What the add set binds under `k`, read off the new attributes directly.
proof fn lemma_adds_last_bound(
    a1: Seq<AttrView>,
    a2: Seq<AttrView>,
    i: int,
    listeners: bool,
    k: Seq<char>,
    dflt: Option<crate::node::ValView>,
)
    requires
        0 <= i <= a2.len(),
    ensures
        ({
            let adds = adds_upto(a1, a2, i, listeners);
            last_bound(adds, adds.len() as int, k, dflt) == changed_bound(
                a1,
                a2,
                i,
                listeners,
                k,
                dflt,
            )
        }),
    decreases i,
{
    if i > 0 {
        lemma_adds_last_bound(a1, a2, i - 1, listeners, k, dflt);
        let prev = adds_upto(a1, a2, i - 1, listeners);
        if is_listener(a2[i - 1]) == listeners && attr_changed(a1, a2[i - 1]) {
            assert(adds_upto(a1, a2, i, listeners) =~= prev.push(a2[i - 1]));
            lemma_last_bound_prefix(prev.push(a2[i - 1]), prev, prev.len() as int, k, dflt);
        } else {
            assert(adds_upto(a1, a2, i, listeners) =~= prev);
        }
    }
}

/// Whether the remove set holds `k`, read off the old attributes directly.
proof fn lemma_removes_hold(
    a1: Seq<AttrView>,
    a2: Seq<AttrView>,
    i: int,
    listeners: bool,
    k: Seq<char>,
)
    requires
        0 <= i <= a1.len(),
    ensures
        ({
            let names = removes_upto(a1, a2, i, listeners);
            names_hold(names, names.len() as int, k) == class_removed(a1, a2, i, listeners, k)
        }),
    decreases i,
{
    if i > 0 {
        lemma_removes_hold(a1, a2, i - 1, listeners, k);
        let prev = removes_upto(a1, a2, i - 1, listeners);
        if is_listener(a1[i - 1]) == listeners && lookup(a2, a1[i - 1].name) is None {
            assert(removes_upto(a1, a2, i, listeners) =~= prev.push(a1[i - 1].name));
            lemma_names_hold_prefix(prev.push(a1[i - 1].name), prev, prev.len() as int, k);
        } else {
            assert(removes_upto(a1, a2, i, listeners) =~= prev);
        }
    }
}

/// When no new attribute of the class is a changed one named `k`, the add
/// set leaves `k` alone.
proof fn lemma_changed_bound_none(
    a1: Seq<AttrView>,
    a2: Seq<AttrView>,
    i: int,
    listeners: bool,
    k: Seq<char>,
    dflt: Option<crate::node::ValView>,
)
    requires
        0 <= i <= a2.len(),
        forall|j: int|
            0 <= j < i ==> !(a2[j].name == k && is_listener(#[trigger] a2[j]) == listeners
                && attr_changed(a1, a2[j])),
    ensures
        changed_bound(a1, a2, i, listeners, k, dflt) == dflt,
    decreases i,
{
    if i > 0 {
        lemma_changed_bound_none(a1, a2, i - 1, listeners, k, dflt);
    }
}

/// The class membership of `k` in the remove set, as an existence statement.
proof fn lemma_class_removed_iff(
    a1: Seq<AttrView>,
    a2: Seq<AttrView>,
    i: int,
    listeners: bool,
    k: Seq<char>,
)
    requires
        0 <= i <= a1.len(),
    ensures
        class_removed(a1, a2, i, listeners, k) <==> (exists|j: int|
            0 <= j < i && a1[j].name == k && is_listener(#[trigger] a1[j]) == listeners && lookup(
                a2,
                k,
            ) is None),
    decreases i,
{
    if i > 0 {
        lemma_class_removed_iff(a1, a2, i - 1, listeners, k);
    }
}

/// A bound name has a carrier: some entry holds it, with the bound value.
proof fn lemma_lookup_index(s: Seq<AttrView>, i: int, k: Seq<char>)
    requires
        0 <= i <= s.len(),
    ensures
        lookup_at(s, i, k) matches Some(v) ==> exists|j: int|
            i <= j < s.len() && #[trigger] s[j].name == k && s[j].value == v,
    decreases s.len() - i,
{
    if i < s.len() {
        lemma_lookup_index(s, i + 1, k);
    }
}

} // verus!

verus! {

/// The add set binds `k` to the one changed attribute carrying it.
proof fn lemma_changed_bound_hit(
    a1: Seq<AttrView>,
    a2: Seq<AttrView>,
    i: int,
    listeners: bool,
    k: Seq<char>,
    dflt: Option<crate::node::ValView>,
    j: int,
)
    requires
        0 <= j < i <= a2.len(),
        a2[j].name == k,
        is_listener(a2[j]) == listeners,
        attr_changed(a1, a2[j]),
        forall|j2: int| j < j2 < i ==> a2[j2].name != k,
    ensures
        changed_bound(a1, a2, i, listeners, k, dflt) == Some(a2[j].value),
    decreases i,
{
    if j < i - 1 {
        lemma_changed_bound_hit(a1, a2, i - 1, listeners, k, dflt, j);
    }
}

/// The attribute half of the round trip: applying a node's four attribute
/// patch sets (plain adds, plain removes, listener adds, listener removes,
/// in emission order) to its old well-formed attribute collection binds
/// under every name exactly what the new well-formed collection binds.
pub proof fn lemma_attr_round_trip(a1: Seq<AttrView>, a2: Seq<AttrView>, k: Seq<char>)
    requires
        attrs_wf(a1),
        attrs_wf(a2),
    ensures
        ({
            let pa = attr_adds(a1, a2, false);
            let pr = attr_removes(a1, a2, false);
            let la = attr_adds(a1, a2, true);
            let lr = attr_removes(a1, a2, true);
            let s1 = upsert_all(a1, pa, pa.len() as int);
            let s2 = remove_all(s1, pr, pr.len() as int);
            let s3 = upsert_all(s2, la, la.len() as int);
            let s4 = remove_all(s3, lr, lr.len() as int);
            lookup(s4, k) == lookup(a2, k)
        }),
{
    let pa = attr_adds(a1, a2, false);
    let pr = attr_removes(a1, a2, false);
    let la = attr_adds(a1, a2, true);
    let lr = attr_removes(a1, a2, true);
    let s1 = upsert_all(a1, pa, pa.len() as int);
    let s2 = remove_all(s1, pr, pr.len() as int);
    let s3 = upsert_all(s2, la, la.len() as int);
    let s4 = remove_all(s3, lr, lr.len() as int);
    let n1 = a1.len() as int;
    let n2 = a2.len() as int;
    lemma_upsert_all_lookup(a1, pa, pa.len() as int, k);
    lemma_adds_last_bound(a1, a2, n2, false, k, lookup(a1, k));
    lemma_remove_all_lookup(s1, pr, pr.len() as int, k);
    lemma_removes_hold(a1, a2, n1, false, k);
    lemma_upsert_all_lookup(s2, la, la.len() as int, k);
    lemma_adds_last_bound(a1, a2, n2, true, k, lookup(s2, k));
    lemma_remove_all_lookup(s3, lr, lr.len() as int, k);
    lemma_removes_hold(a1, a2, n1, true, k);
    lemma_class_removed_iff(a1, a2, n1, false, k);
    lemma_class_removed_iff(a1, a2, n1, true, k);
    if lookup(a2, k) is Some {
        lemma_lookup_index(a2, 0, k);
        let v = lookup(a2, k).unwrap();
        let j2 = choose|j: int| 0 <= j < a2.len() && #[trigger] a2[j].name == k && a2[j].value == v;
        assert forall|j: int| 0 <= j < a2.len() && j != j2 implies a2[j].name != k by {
            if j < j2 {
                assert(a2[j].name != a2[j2].name);
            } else {
                assert(a2[j2].name != a2[j].name);
            }
        }
        assert(!class_removed(a1, a2, n1, false, k));
        assert(!class_removed(a1, a2, n1, true, k));
        if is_listener(a2[j2]) {
            lemma_changed_bound_none(a1, a2, n2, false, k, lookup(a1, k));
            if attr_changed(a1, a2[j2]) {
                lemma_changed_bound_hit(a1, a2, n2, true, k, lookup(s2, k), j2);
            } else {
                lemma_changed_bound_none(a1, a2, n2, true, k, lookup(s2, k));
            }
        } else {
            lemma_changed_bound_none(a1, a2, n2, true, k, lookup(s2, k));
            if attr_changed(a1, a2[j2]) {
                lemma_changed_bound_hit(a1, a2, n2, false, k, lookup(a1, k), j2);
            } else {
                lemma_changed_bound_none(a1, a2, n2, false, k, lookup(a1, k));
            }
        }
    } else {
        assert forall|j: int| 0 <= j < a2.len() implies a2[j].name != k by {
            if a2[j].name == k {
                lemma_lookup_self(a2, j);
            }
        }
        lemma_changed_bound_none(a1, a2, n2, false, k, lookup(a1, k));
        lemma_changed_bound_none(a1, a2, n2, true, k, lookup(s2, k));
        if lookup(a1, k) is Some {
            lemma_lookup_index(a1, 0, k);
            let w = lookup(a1, k).unwrap();
            let j1 = choose|j: int|
                0 <= j < a1.len() && #[trigger] a1[j].name == k && a1[j].value == w;
            assert forall|j: int| 0 <= j < a1.len() && j != j1 implies a1[j].name != k by {
                if j < j1 {
                    assert(a1[j].name != a1[j1].name);
                } else {
                    assert(a1[j1].name != a1[j].name);
                }
            }
            if is_listener(a1[j1]) {
                assert(!class_removed(a1, a2, n1, false, k));
                assert(class_removed(a1, a2, n1, true, k));
            } else {
                assert(class_removed(a1, a2, n1, false, k));
            }
        }
    }
}

} // verus!

verus! {

/// Every patch of a subtree's edit script targets an index inside that
/// subtree's depth-first range.
pub proof fn lemma_diff_idx_range(a: NodeView, b: NodeView, idx: int)
    ensures
        forall|m: int|
            0 <= m < diff_spec(a, b, idx).len() ==> idx <= (#[trigger] diff_spec(a, b, idx)[m]).target_idx()
                < idx + node_size(a),
    decreases a, 0int,
{
    match (a, b) {
        (NodeView::Text { .. }, NodeView::Text { .. }) => {}
        (
            NodeView::Element { tag: t1, attrs: aa1, children: cs1 },
            NodeView::Element { tag: t2, attrs: aa2, children: cs2 },
        ) => {
            if t1 == t2 {
                lemma_diff_children_idx_range(cs1, cs2, 0, idx + 1);
                crate::node::lemma_subtree_sizes_mono(cs1, 0, cs1.len() as int);
                let whole = diff_spec(a, b, idx);
                let own = own_patches(t1, aa1, aa2, idx);
                let dc = diff_children(cs1, cs2, 0, idx + 1);
                let cnt = count_patch(t1, idx, cs1, cs2);
                assert(node_size(a) == 1 + subtree_sizes(cs1, cs1.len() as int));
                assert forall|m: int|
                    0 <= m < whole.len() implies idx <= (#[trigger] whole[m]).target_idx() < idx
                    + node_size(a) by {
                    assert(forall|m2: int|
                        0 <= m2 < own.len() ==> (#[trigger] own[m2]).target_idx() == idx);
                    if m < own.len() {
                        assert(whole[m] == own[m]);
                    } else if m < own.len() + dc.len() {
                        assert(whole[m] == dc[m - own.len()]);
                    } else {
                        assert(whole[m] == cnt[m - own.len() - dc.len()]);
                        assert(cnt[m - own.len() - dc.len()].target_idx() == idx);
                    }
                }
            }
        }
        _ => {}
    }
}

/// Every patch of a child-suffix edit script targets an index in the range
/// the remaining subtrees cover.
proof fn lemma_diff_children_idx_range(olds: Seq<NodeView>, news: Seq<NodeView>, k: int, idx: int)
    requires
        0 <= k <= olds.len(),
    ensures
        forall|m: int|
            0 <= m < diff_children(olds, news, k, idx).len() ==> idx <= (#[trigger] diff_children(
                olds,
                news,
                k,
                idx,
            )[m]).target_idx() < idx + subtree_sizes(olds, olds.len() as int) - subtree_sizes(
                olds,
                k,
            ),
    decreases olds, olds.len() - k,
{
    if k < olds.len() && k < news.len() {
        lemma_diff_idx_range(olds[k], news[k], idx);
        lemma_diff_children_idx_range(olds, news, k + 1, idx + node_size(olds[k]));
        crate::node::lemma_subtree_sizes_step(olds, k);
        crate::node::lemma_subtree_sizes_mono(olds, k + 1, olds.len() as int);
        let whole = diff_children(olds, news, k, idx);
        let first = diff_spec(olds[k], news[k], idx);
        let rest = diff_children(olds, news, k + 1, idx + node_size(olds[k]));
        assert forall|m: int|
            0 <= m < whole.len() implies idx <= (#[trigger] whole[m]).target_idx() < idx
            + subtree_sizes(olds, olds.len() as int) - subtree_sizes(olds, k) by {
            if m < first.len() {
                assert(whole[m] == first[m]);
            } else {
                assert(whole[m] == rest[m - first.len()]);
            }
        }
    }
}

/// Patches that all target indices outside a subtree's range leave the
/// subtree untouched and unconsumed.
pub proof fn lemma_apply_outside(live: NodeView, ps: Seq<PatchView>, idx: int)
    ensures
        (forall|m: int|
            0 <= m < ps.len() ==> !(idx <= (#[trigger] ps[m]).target_idx() < idx + node_size(
                live,
            ))) ==> apply_node_spec(live, ps, idx) == Some((live, ps)),
    decreases live, 1int,
{
    if forall|m: int|
        0 <= m < ps.len() ==> !(idx <= (#[trigger] ps[m]).target_idx() < idx + node_size(live)) {
        match live {
            NodeView::Text { .. } => {}
            NodeView::Element { tag, attrs, children } => {
                crate::node::lemma_subtree_sizes_mono(children, 0, children.len() as int);
                lemma_apply_children_outside(children, ps, 0, idx + 1);
                assert(children.skip(0) =~= children);
                assert((NodeView::Element { tag, attrs, children: children.skip(0) }) =~= live);
            }
        }
    }
}

/// As `lemma_apply_outside`, for a child suffix.
proof fn lemma_apply_children_outside(cs: Seq<NodeView>, ps: Seq<PatchView>, k: int, idx: int)
    requires
        0 <= k <= cs.len(),
    ensures
        (forall|m: int|
            0 <= m < ps.len() ==> !(idx <= (#[trigger] ps[m]).target_idx() < idx + subtree_sizes(
                cs,
                cs.len() as int,
            ) - subtree_sizes(cs, k))) ==> apply_children_spec(cs, ps, k, idx) == Some(
            (cs.skip(k), ps),
        ),
    decreases cs, cs.len() - k,
{
    if forall|m: int|
        0 <= m < ps.len() ==> !(idx <= (#[trigger] ps[m]).target_idx() < idx + subtree_sizes(
            cs,
            cs.len() as int,
        ) - subtree_sizes(cs, k)) {
        if k >= cs.len() {
            assert(cs.skip(k) =~= Seq::<NodeView>::empty());
        } else {
            crate::node::lemma_subtree_sizes_step(cs, k);
            crate::node::lemma_subtree_sizes_mono(cs, k + 1, cs.len() as int);
            lemma_apply_outside(cs[k], ps, idx);
            lemma_apply_children_outside(cs, ps, k + 1, idx + node_size(cs[k]));
            assert(seq![cs[k]] + cs.skip(k + 1) =~= cs.skip(k));
        }
    }
}

} // verus!

verus! {

/// Applying a node's own attribute and listener patches consumes exactly
/// them: the pending patches behind them are untouched, and the attribute
/// collection becomes the four patch sets applied in emission order.
#[verifier::rlimit(100)]
#[verifier::spinoff_prover]
proof fn lemma_attr_phase(
    t1: Seq<char>,
    aa1: Seq<AttrView>,
    aa2: Seq<AttrView>,
    idx: int,
    tail: Seq<PatchView>,
)
    requires
        tail.len() > 0 ==> !((tail[0] matches PatchView::AddAttributes(t, i, x) && i == idx) || (
        tail[0] matches PatchView::RemoveAttributes(t, i, x) && i == idx) || (
        tail[0] matches PatchView::AddEventListener(t, i, x) && i == idx) || (
        tail[0] matches PatchView::RemoveEventListener(t, i, x) && i == idx)),
    ensures
        ({
            let pa = attr_adds(aa1, aa2, false);
            let pr = attr_removes(aa1, aa2, false);
            let la = attr_adds(aa1, aa2, true);
            let lr = attr_removes(aa1, aa2, true);
            let s1 = upsert_all(aa1, pa, pa.len() as int);
            let s2 = remove_all(s1, pr, pr.len() as int);
            let s3 = upsert_all(s2, la, la.len() as int);
            let s4 = remove_all(s3, lr, lr.len() as int);
            apply_attr_patches(t1, aa1, own_patches(t1, aa1, aa2, idx) + tail, idx) == Some(
                (s4, tail),
            )
        }),
{
    let pa = attr_adds(aa1, aa2, false);
    let pr = attr_removes(aa1, aa2, false);
    let la = attr_adds(aa1, aa2, true);
    let lr = attr_removes(aa1, aa2, true);
    let s1 = upsert_all(aa1, pa, pa.len() as int);
    let s2 = remove_all(s1, pr, pr.len() as int);
    let s3 = upsert_all(s2, la, la.len() as int);
    let s4 = remove_all(s3, lr, lr.len() as int);
    let qa = crate::diff::opt_patch(PatchView::AddAttributes(t1, idx, pa), pa.len() > 0);
    let qr = crate::diff::opt_patch(PatchView::RemoveAttributes(t1, idx, pr), pr.len() > 0);
    let ql = crate::diff::opt_patch(PatchView::AddEventListener(t1, idx, la), la.len() > 0);
    let qm = crate::diff::opt_patch(PatchView::RemoveEventListener(t1, idx, lr), lr.len() > 0);
    let ps0 = own_patches(t1, aa1, aa2, idx) + tail;
    let ps1 = qr + (ql + (qm + tail));
    let ps2 = ql + (qm + tail);
    let ps3 = qm + tail;
    assert(ps0 =~= qa + ps1);
    if pa.len() > 0 {
        assert((qa + ps1).drop_first() =~= ps1);
        assert(crate::apply::step_add_attrs(t1, aa1, ps0, idx) == Some((s1, ps1)));
    } else {
        assert(ps0 =~= ps1);
        assert(crate::apply::step_add_attrs(t1, aa1, ps0, idx) == Some((s1, ps1)));
    }
    if pr.len() > 0 {
        assert(ps1.drop_first() =~= ps2);
        assert(crate::apply::step_remove_attrs(t1, s1, ps1, idx) == Some((s2, ps2)));
    } else {
        assert(ps1 =~= ps2);
        assert(crate::apply::step_remove_attrs(t1, s1, ps1, idx) == Some((s2, ps2)));
    }
    if la.len() > 0 {
        assert(ps2.drop_first() =~= ps3);
        assert(crate::apply::step_add_listeners(t1, s2, ps2, idx) == Some((s3, ps3)));
    } else {
        assert(ps2 =~= ps3);
        assert(crate::apply::step_add_listeners(t1, s2, ps2, idx) == Some((s3, ps3)));
    }
    if lr.len() > 0 {
        assert(ps3.drop_first() =~= tail);
        assert(crate::apply::step_remove_listeners(t1, s3, ps3, idx) == Some((s4, tail)));
    } else {
        assert(ps3 =~= tail);
        assert(crate::apply::step_remove_listeners(t1, s3, ps3, idx) == Some((s4, tail)));
    }
}

} // verus!

verus! {

/// Round trip: applying the edit script `diff` computes for two well-formed
/// trees to the old tree yields a tree observably equal to the new one —
/// same tags, text, attribute and listener bindings and child counts,
/// recursively — and consumes the whole script, leaving exactly the pending
/// patches `tail` behind, provided those target indices outside the old
/// subtree's range.
#[verifier::rlimit(100)]
#[verifier::spinoff_prover]
pub proof fn lemma_round_trip(a: NodeView, b: NodeView, idx: int, tail: Seq<PatchView>)
    requires
        node_wf(a),
        node_wf(b),
        forall|m: int|
            0 <= m < tail.len() ==> !(idx <= (#[trigger] tail[m]).target_idx() < idx + node_size(
                a,
            )),
    ensures
        ({
            let r = apply_node_spec(a, diff_spec(a, b, idx) + tail, idx);
            r is Some && r.unwrap().1 == tail && obs_eq(r.unwrap().0, b)
        }),
    decreases a, 0int,
{
    let ps = diff_spec(a, b, idx) + tail;
    if a is Text && b is Text {
        if a == b {
            assert(ps =~= tail);
            lemma_obs_eq_refl(b);
        } else {
            assert(ps.drop_first() =~= tail);
        }
    } else if !(a is Element && b is Element && a->Element_tag == b->Element_tag) {
        lemma_tag_change_replaces(a, b, idx);
        assert(ps.drop_first() =~= tail);
        lemma_obs_eq_refl(b);
    } else {
        let t1 = a->Element_tag;
        let aa1 = a->Element_attrs;
        let cs1 = a->Element_children;
        let aa2 = b->Element_attrs;
        let cs2 = b->Element_children;
        let own = own_patches(t1, aa1, aa2, idx);
        let dc = diff_children(cs1, cs2, 0, idx + 1);
        let cnt = count_patch(t1, idx, cs1, cs2);
        let sizes = subtree_sizes(cs1, cs1.len() as int);
        assert(node_size(a) == 1 + sizes);
        lemma_children_wf(cs1, cs1.len() as int);
        lemma_children_wf(cs2, cs2.len() as int);
        lemma_diff_children_idx_range(cs1, cs2, 0, idx + 1);
        let dtail = dc + (cnt + tail);
        assert(ps =~= own + dtail);
        // the pending patch behind the attribute phase is never one of the
        // node's own attribute patches
        assert(dtail.len() > 0 ==> !((dtail[0] matches PatchView::AddAttributes(t, i, x) && i
            == idx) || (dtail[0] matches PatchView::RemoveAttributes(t, i, x) && i == idx) || (
        dtail[0] matches PatchView::AddEventListener(t, i, x) && i == idx) || (
        dtail[0] matches PatchView::RemoveEventListener(t, i, x) && i == idx))) by {
            if dtail.len() > 0 {
                if dc.len() > 0 {
                    assert(dtail[0] == dc[0]);
                    assert(dc[0].target_idx() > idx);
                } else if cnt.len() > 0 {
                    assert(dtail[0] == cnt[0]);
                } else {
                    assert(dtail[0] == tail[0]);
                    assert(tail[0].target_idx() != idx);
                }
            }
        }
        lemma_attr_phase(t1, aa1, aa2, idx, dtail);
        // the script opens with no replacement for this node
        assert(!(ps.len() > 0 && (ps[0] matches PatchView::Replace(t, i, n) && i == idx))) by {
            if ps.len() > 0 {
                if own.len() > 0 {
                    assert(ps[0] == own[0]);
                } else if dc.len() > 0 {
                    assert(ps[0] == dc[0]);
                    assert(dc[0].target_idx() > idx);
                } else if cnt.len() > 0 {
                    assert(ps[0] == cnt[0]);
                } else {
                    assert(ps[0] == tail[0]);
                    assert(tail[0].target_idx() != idx);
                }
            }
        }
        // children phase
        let ctail = cnt + tail;
        assert(forall|m: int|
            0 <= m < ctail.len() ==> !(idx + 1 <= (#[trigger] ctail[m]).target_idx() < idx + 1
                + sizes - subtree_sizes(cs1, 0))) by {
            assert forall|m: int|
                0 <= m < ctail.len() implies !(idx + 1 <= (#[trigger] ctail[m]).target_idx() < idx
                + 1 + sizes - subtree_sizes(cs1, 0)) by {
                if m < cnt.len() {
                    assert(ctail[m] == cnt[m]);
                    assert(cnt[m].target_idx() == idx);
                } else {
                    assert(ctail[m] == tail[m - cnt.len()]);
                }
            }
        }
        lemma_round_trip_children(cs1, cs2, 0, idx + 1, ctail);
        let rc = apply_children_spec(cs1, diff_children(cs1, cs2, 0, idx + 1) + ctail, 0, idx + 1);
        assert(dc + ctail =~= dtail);
        let kids = rc.unwrap().0;
        // count phase
        if cs2.len() > cs1.len() {
            assert(ctail.drop_first() =~= tail);
            assert(step_count(t1, kids, ctail, idx) == Some((kids + cs2.skip(cs1.len() as int), tail)));
            let kids2 = kids + cs2.skip(cs1.len() as int);
            assert forall|j: int| 0 <= j < kids2.len() implies obs_eq(kids2[j], cs2[j]) by {
                if j >= cs1.len() {
                    assert(kids2[j] == cs2[j]);
                    lemma_obs_eq_refl(cs2[j]);
                }
            }
            lemma_children_obs_eq(kids2, cs2, kids2.len() as int);
        } else if cs2.len() < cs1.len() {
            assert(ctail.drop_first() =~= tail);
            assert(0 <= cs2.len() <= kids.len());
            assert(step_count(t1, kids, ctail, idx) == Some((kids.take(cs2.len() as int), tail)));
            let kids2 = kids.take(cs2.len() as int);
            assert(forall|j: int| 0 <= j < kids2.len() ==> obs_eq(#[trigger] kids2[j], cs2[j]));
            lemma_children_obs_eq(kids2, cs2, kids2.len() as int);
        } else {
            assert(ctail =~= tail);
            assert(tail.len() > 0 ==> tail[0].target_idx() != idx);
            assert(step_count(t1, kids, tail, idx) == Some((kids, tail)));
            lemma_children_obs_eq(kids, cs2, kids.len() as int);
        }
        // the patched attributes bind what the new node binds
        let pa = attr_adds(aa1, aa2, false);
        let pr = attr_removes(aa1, aa2, false);
        let la = attr_adds(aa1, aa2, true);
        let lr = attr_removes(aa1, aa2, true);
        let s4 = remove_all(
            upsert_all(
                remove_all(upsert_all(aa1, pa, pa.len() as int), pr, pr.len() as int),
                la,
                la.len() as int,
            ),
            lr,
            lr.len() as int,
        );
        assert forall|k: Seq<char>| #[trigger] lookup(s4, k) == lookup(aa2, k) by {
            lemma_attr_round_trip(aa1, aa2, k);
        }
    }
}

/// Round trip at the roots: the edit script `diff` computes for two
/// well-formed trees, applied to the old tree, is consumed whole and yields
/// a tree observably equal to the new one. Together with the contracts of
/// `diff` and `apply_patches` this says: applying `diff(a, b)` to a live
/// tree shaped like `a` makes it observably equal to `b`.
pub proof fn lemma_diff_apply_round_trip(a: NodeView, b: NodeView)
    requires
        node_wf(a),
        node_wf(b),
    ensures
        ({
            let r = apply_node_spec(a, diff_spec(a, b, 0), 0);
            r is Some && r.unwrap().1.len() == 0 && obs_eq(r.unwrap().0, b)
        }),
{
    lemma_round_trip(a, b, 0, Seq::<PatchView>::empty());
    assert(diff_spec(a, b, 0) + Seq::<PatchView>::empty() =~= diff_spec(a, b, 0));
}

/// Round trip over a child suffix: the children's edit scripts are consumed
/// child by child; shared positions come out observably equal to the new
/// children, surplus old positions untouched.
proof fn lemma_round_trip_children(
    cs1: Seq<NodeView>,
    cs2: Seq<NodeView>,
    k: int,
    idx: int,
    tail: Seq<PatchView>,
)
    requires
        0 <= k <= cs1.len(),
        forall|j: int| 0 <= j < cs1.len() ==> node_wf(#[trigger] cs1[j]),
        forall|j: int| 0 <= j < cs2.len() ==> node_wf(#[trigger] cs2[j]),
        forall|m: int|
            0 <= m < tail.len() ==> !(idx <= (#[trigger] tail[m]).target_idx() < idx
                + subtree_sizes(cs1, cs1.len() as int) - subtree_sizes(cs1, k)),
    ensures
        ({
            let r = apply_children_spec(cs1, diff_children(cs1, cs2, k, idx) + tail, k, idx);
            r is Some && r.unwrap().1 == tail && r.unwrap().0.len() == cs1.len() - k && (forall|
                j: int,
            |
                0 <= j < r.unwrap().0.len() ==> (k + j < cs2.len() ==> obs_eq(
                    #[trigger] r.unwrap().0[j],
                    cs2[k + j],
                )) && (k + j >= cs2.len() ==> r.unwrap().0[j] == cs1[k + j]))
        }),
    decreases cs1, cs1.len() - k,
{
    crate::node::lemma_subtree_sizes_mono(cs1, k, cs1.len() as int);
    if k >= cs1.len() {
        assert(diff_children(cs1, cs2, k, idx) + tail =~= tail);
    } else {
        crate::node::lemma_subtree_sizes_step(cs1, k);
        crate::node::lemma_subtree_sizes_mono(cs1, k + 1, cs1.len() as int);
        if k >= cs2.len() {
            assert(diff_children(cs1, cs2, k, idx) + tail =~= tail);
            lemma_apply_outside(cs1[k], tail, idx);
            lemma_round_trip_children(cs1, cs2, k + 1, idx + node_size(cs1[k]), tail);
            assert(diff_children(cs1, cs2, k + 1, idx + node_size(cs1[k])) + tail =~= tail);
            let rest = apply_children_spec(cs1, tail, k + 1, idx + node_size(cs1[k]));
            assert(apply_children_spec(cs1, tail, k, idx) == Some(
                (seq![cs1[k]] + rest.unwrap().0, tail),
            ));
        } else {
            let dk = diff_spec(cs1[k], cs2[k], idx);
            let dnext = diff_children(cs1, cs2, k + 1, idx + node_size(cs1[k]));
            let child_tail = dnext + tail;
            assert(diff_children(cs1, cs2, k, idx) + tail =~= dk + child_tail);
            lemma_diff_children_idx_range(cs1, cs2, k + 1, idx + node_size(cs1[k]));
            assert forall|m: int|
                0 <= m < child_tail.len() implies !(idx <= (#[trigger] child_tail[m]).target_idx()
                < idx + node_size(cs1[k])) by {
                if m < dnext.len() {
                    assert(child_tail[m] == dnext[m]);
                } else {
                    assert(child_tail[m] == tail[m - dnext.len()]);
                }
            }
            lemma_round_trip(cs1[k], cs2[k], idx, child_tail);
            lemma_round_trip_children(cs1, cs2, k + 1, idx + node_size(cs1[k]), tail);
            let rk = apply_node_spec(cs1[k], dk + child_tail, idx);
            let rest = apply_children_spec(cs1, dnext + tail, k + 1, idx + node_size(cs1[k]));
            assert(apply_children_spec(cs1, dk + child_tail, k, idx) == Some(
                (seq![rk.unwrap().0] + rest.unwrap().0, tail),
            ));
        }
    }
}

} // verus!
