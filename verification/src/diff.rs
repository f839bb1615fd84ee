use vstd::prelude::*;

use crate::node::{
    attrs_view, children_view, lemma_children_view, lemma_subtree_sizes_mono,
    lemma_subtree_sizes_step, lookup, lookup_at, names_view, node_size, subtree_sizes, tag_of,
    Attribute, AttrView, AttValue, Node, NodeView,
};
use crate::patch::{patches_view, Patch, PatchView};

verus! {

/// Whether an attribute is a listener attribute.
pub open spec fn is_listener(a: AttrView) -> bool {
    a.value is Listener
}

/// Whether `a` must be (re)bound on the live node: the old collection either
/// lacks its name or binds a different value to it.
pub open spec fn attr_changed(old_attrs: Seq<AttrView>, a: AttrView) -> bool {
    lookup(old_attrs, a.name) != Some(a.value)
}

/// The attributes among `new_attrs[0 .. i]` of the given class (listener or
/// plain) that the diff must bind, in the new node's order.
pub open spec fn adds_upto(
    old_attrs: Seq<AttrView>,
    new_attrs: Seq<AttrView>,
    i: int,
    listeners: bool,
) -> Seq<AttrView>
    decreases i,
{
    if i <= 0 || i > new_attrs.len() {
        Seq::empty()
    } else {
        adds_upto(old_attrs, new_attrs, i - 1, listeners) + (if is_listener(new_attrs[i - 1])
            == listeners && attr_changed(old_attrs, new_attrs[i - 1]) {
            seq![new_attrs[i - 1]]
        } else {
            Seq::empty()
        })
    }
}

/// The attributes of the given class present (by name) in the new node but
/// absent or changed in the old one; the new value wins whole.
pub open spec fn attr_adds(
    old_attrs: Seq<AttrView>,
    new_attrs: Seq<AttrView>,
    listeners: bool,
) -> Seq<AttrView> {
    adds_upto(old_attrs, new_attrs, new_attrs.len() as int, listeners)
}

/// The names among `old_attrs[0 .. i]` of the given class that the diff must
/// unbind, in the old node's order.
pub open spec fn removes_upto(
    old_attrs: Seq<AttrView>,
    new_attrs: Seq<AttrView>,
    i: int,
    listeners: bool,
) -> Seq<Seq<char>>
    decreases i,
{
    if i <= 0 || i > old_attrs.len() {
        Seq::empty()
    } else {
        removes_upto(old_attrs, new_attrs, i - 1, listeners) + (if is_listener(old_attrs[i - 1])
            == listeners && lookup(new_attrs, old_attrs[i - 1].name) is None {
            seq![old_attrs[i - 1].name]
        } else {
            Seq::empty()
        })
    }
}

/// The names of the given class present in the old node but absent from the
/// new one.
pub open spec fn attr_removes(
    old_attrs: Seq<AttrView>,
    new_attrs: Seq<AttrView>,
    listeners: bool,
) -> Seq<Seq<char>> {
    removes_upto(old_attrs, new_attrs, old_attrs.len() as int, listeners)
}

/// A singleton when the payload is non-empty, nothing otherwise: an empty
/// add or remove set emits no patch.
pub open spec fn opt_patch(p: PatchView, nonempty: bool) -> Seq<PatchView> {
    if nonempty {
        seq![p]
    } else {
        Seq::empty()
    }
}

/// The attribute and listener patches for one node of matching tag, in
/// emission order: plain adds, plain removes, listener adds, listener
/// removes.
pub open spec fn own_patches(
    tag: Seq<char>,
    old_attrs: Seq<AttrView>,
    new_attrs: Seq<AttrView>,
    idx: int,
) -> Seq<PatchView> {
    let pa = attr_adds(old_attrs, new_attrs, false);
    let pr = attr_removes(old_attrs, new_attrs, false);
    let la = attr_adds(old_attrs, new_attrs, true);
    let lr = attr_removes(old_attrs, new_attrs, true);
    opt_patch(PatchView::AddAttributes(tag, idx, pa), pa.len() > 0) + opt_patch(
        PatchView::RemoveAttributes(tag, idx, pr),
        pr.len() > 0,
    ) + opt_patch(PatchView::AddEventListener(tag, idx, la), la.len() > 0) + opt_patch(
        PatchView::RemoveEventListener(tag, idx, lr),
        lr.len() > 0,
    )
}

/// The child-count patch for one node: append the surplus new children, or
/// truncate to the new length, or nothing when the counts agree.
pub open spec fn count_patch(
    tag: Seq<char>,
    idx: int,
    olds: Seq<NodeView>,
    news: Seq<NodeView>,
) -> Seq<PatchView> {
    if news.len() > olds.len() {
        seq![PatchView::AppendChildren(tag, idx, news.skip(olds.len() as int))]
    } else if news.len() < olds.len() {
        seq![PatchView::TruncateChildren(tag, idx, news.len() as int)]
    } else {
        Seq::empty()
    }
}

/// The ordered edit script that turns the subtree `old` (rooted at
/// depth-first index `idx`) into the subtree `new`.
///
/// A tag change replaces the whole subtree and prunes it: no patch is
/// emitted for any descendant. Matching elements diff their attributes, then
/// their shared children positionally, then fix the child count. Matching
/// text leaves compare their content.
pub open spec fn diff_spec(old_node: NodeView, new_node: NodeView, idx: int) -> Seq<PatchView>
    decreases old_node, 0int,
{
    match (old_node, new_node) {
        (NodeView::Text { content: c1 }, NodeView::Text { content: c2 }) => {
            if c1 == c2 {
                Seq::empty()
            } else {
                seq![PatchView::ChangeText(idx, c2)]
            }
        },
        (
            NodeView::Element { tag: t1, attrs: a1, children: cs1 },
            NodeView::Element { tag: t2, attrs: a2, children: cs2 },
        ) => {
            if t1 == t2 {
                own_patches(t1, a1, a2, idx) + diff_children(cs1, cs2, 0, idx + 1) + count_patch(
                    t1,
                    idx,
                    cs1,
                    cs2,
                )
            } else {
                seq![PatchView::Replace(t1, idx, new_node)]
            }
        },
        _ => seq![PatchView::Replace(tag_of(old_node), idx, new_node)],
    }
}

/// The edit scripts for the positionally shared children `k` and beyond,
/// with child `k` rooted at index `idx`, concatenated in order.
pub open spec fn diff_children(
    olds: Seq<NodeView>,
    news: Seq<NodeView>,
    k: int,
    idx: int,
) -> Seq<PatchView>
    decreases olds, olds.len() - k,
{
    if k < 0 || k >= olds.len() || k >= news.len() {
        Seq::empty()
    } else {
        diff_spec(olds[k], news[k], idx) + diff_children(olds, news, k + 1, idx + node_size(
            olds[k],
        ))
    }
}

/// First match by name among the attributes, as the model's `lookup` finds
/// it.
fn find_index(attrs: &Vec<Attribute>, name: &String) -> (r: Option<usize>)
    ensures
        match r {
            Some(i) => i < attrs.len() && attrs@[i as int]@.name == name@ && lookup(
                attrs_view(attrs@),
                name@,
            ) == Some(attrs@[i as int]@.value),
            None => lookup(attrs_view(attrs@), name@) is None,
        },
{
    let ghost s = attrs_view(attrs@);
    let mut i: usize = 0;
    while i < attrs.len()
        invariant
            i <= attrs.len(),
            s == attrs_view(attrs@),
            lookup(s, name@) == lookup_at(s, i as int, name@),
        decreases attrs.len() - i,
    {
        if attrs[i].name == *name {
            return Some(i);
        }
        i = i + 1;
    }
    None
}

/// Whether two attribute values are equal in the model: plain values by
/// content, listener bindings by identity and flags.
fn att_value_eq(a: &AttValue, b: &AttValue) -> (r: bool)
    ensures
        r == (a@ == b@),
{
    match (a, b) {
        (AttValue::Plain(s1), AttValue::Plain(s2)) => *s1 == *s2,
        (AttValue::Listener(l1), AttValue::Listener(l2)) => *l1 == *l2,
        _ => false,
    }
}

/// The add set of one class, in the new node's order.
fn collect_adds(old_attrs: &Vec<Attribute>, new_attrs: &Vec<Attribute>, listeners: bool) -> (r:
    Vec<Attribute>)
    ensures
        attrs_view(r@) == attr_adds(attrs_view(old_attrs@), attrs_view(new_attrs@), listeners),
{
    let ghost so = attrs_view(old_attrs@);
    let ghost sn = attrs_view(new_attrs@);
    let mut r: Vec<Attribute> = Vec::new();
    let mut i: usize = 0;
    while i < new_attrs.len()
        invariant
            i <= new_attrs.len(),
            so == attrs_view(old_attrs@),
            sn == attrs_view(new_attrs@),
            attrs_view(r@) == adds_upto(so, sn, i as int, listeners),
        decreases new_attrs.len() - i,
    {
        let a = &new_attrs[i];
        let a_is_listener = match &a.value {
            AttValue::Listener(_) => true,
            AttValue::Plain(_) => false,
        };
        if a_is_listener == listeners {
            let changed = match find_index(old_attrs, &a.name) {
                None => true,
                Some(j) => !att_value_eq(&old_attrs[j].value, &a.value),
            };
            if changed {
                let c = a.deep_clone();
                r.push(c);
            }
        }
        i = i + 1;
        proof {
            assert(attrs_view(r@) =~= adds_upto(so, sn, i as int, listeners));
        }
    }
    r
}

/// The remove set of one class, in the old node's order.
fn collect_removes(old_attrs: &Vec<Attribute>, new_attrs: &Vec<Attribute>, listeners: bool) -> (r:
    Vec<String>)
    ensures
        names_view(r@) == attr_removes(attrs_view(old_attrs@), attrs_view(new_attrs@), listeners),
{
    let ghost so = attrs_view(old_attrs@);
    let ghost sn = attrs_view(new_attrs@);
    let mut r: Vec<String> = Vec::new();
    let mut i: usize = 0;
    while i < old_attrs.len()
        invariant
            i <= old_attrs.len(),
            so == attrs_view(old_attrs@),
            sn == attrs_view(new_attrs@),
            names_view(r@) == removes_upto(so, sn, i as int, listeners),
        decreases old_attrs.len() - i,
    {
        let a = &old_attrs[i];
        let a_is_listener = match &a.value {
            AttValue::Listener(_) => true,
            AttValue::Plain(_) => false,
        };
        if a_is_listener == listeners {
            if find_index(new_attrs, &a.name).is_none() {
                r.push(a.name.clone());
            }
        }
        i = i + 1;
        proof {
            assert(names_view(r@) =~= removes_upto(so, sn, i as int, listeners));
        }
    }
    r
}

/// Diff the attribute collections of two nodes of matching tag, appending
/// the add/remove patches for plain attributes and listeners.
fn diff_attributes(
    tag: &String,
    old_attrs: &Vec<Attribute>,
    new_attrs: &Vec<Attribute>,
    idx: usize,
    out: &mut Vec<Patch>,
)
    ensures
        patches_view(final(out)@) == patches_view(old(out)@) + own_patches(
            tag@,
            attrs_view(old_attrs@),
            attrs_view(new_attrs@),
            idx as int,
        ),
{
    let pa = collect_adds(old_attrs, new_attrs, false);
    let pr = collect_removes(old_attrs, new_attrs, false);
    let la = collect_adds(old_attrs, new_attrs, true);
    let lr = collect_removes(old_attrs, new_attrs, true);
    if pa.len() > 0 {
        out.push(Patch::AddAttributes(tag.clone(), idx, pa));
    }
    if pr.len() > 0 {
        out.push(Patch::RemoveAttributes(tag.clone(), idx, pr));
    }
    if la.len() > 0 {
        out.push(Patch::AddEventListener(tag.clone(), idx, la));
    }
    if lr.len() > 0 {
        out.push(Patch::RemoveEventListener(tag.clone(), idx, lr));
    }
    proof {
        assert(patches_view(out@) =~= patches_view(old(out)@) + own_patches(
            tag@,
            attrs_view(old_attrs@),
            attrs_view(new_attrs@),
            idx as int,
        ));
    }
}

/// The number of nodes in the subtree.
pub fn node_count(n: &Node) -> (r: usize)
    requires
        node_size(n@) <= usize::MAX,
    ensures
        r as nat == node_size(n@),
    decreases n@,
{
    match n {
        Node::Text { .. } => 1,
        Node::Element { tag, attributes, children } => {
            let ghost cs = children_view(children@, children@.len() as int);
            proof {
                lemma_children_view(children@, children@.len() as int);
            }
            let mut total: usize = 1;
            let mut i: usize = 0;
            while i < children.len()
                invariant
                    i <= children.len(),
                    cs == children_view(children@, children@.len() as int),
                    cs.len() == children@.len(),
                    forall|j: int| 0 <= j < cs.len() ==> cs[j] == children@[j]@,
                    n@ matches NodeView::Element { children: c2, .. } && c2 == cs,
                    node_size(n@) <= usize::MAX,
                    total as nat == 1 + subtree_sizes(cs, i as int),
                decreases children@.len() - i,
            {
                proof {
                    lemma_subtree_sizes_step(cs, i as int);
                    lemma_subtree_sizes_mono(cs, i + 1, cs.len() as int);
                    assert(decreases_to!(n@ => n@->Element_children));
                    assert(decreases_to!(n@->Element_children => n@->Element_children[i as int]));
                    assert(n@->Element_children[i as int] == children@[i as int]@);
                }
                let c = node_count(&children[i]);
                total = total + c;
                i = i + 1;
            }
            total
        },
    }
}

/// Compute the ordered edit script that turns `old_tree` into `new_tree`:
/// the sole entry point for diffing. Patches target depth-first pre-order
/// indices of the old tree and must be applied in the order returned.
pub fn diff(old_tree: &Node, new_tree: &Node) -> (patches: Vec<Patch>)
    requires
        node_size(old_tree@) <= usize::MAX,
    ensures
        patches_view(patches@) == diff_spec(old_tree@, new_tree@, 0),
{
    let mut patches: Vec<Patch> = Vec::new();
    diff_node(old_tree, new_tree, 0, &mut patches);
    patches
}

/// Diff one positionally matched pair of subtrees, the old one rooted at
/// depth-first index `idx`, appending the resulting patches in order.
fn diff_node(old_node: &Node, new_node: &Node, idx: usize, out: &mut Vec<Patch>)
    requires
        idx + node_size(old_node@) <= usize::MAX,
    ensures
        patches_view(final(out)@) == patches_view(old(out)@) + diff_spec(
            old_node@,
            new_node@,
            idx as int,
        ),
    decreases old_node@,
{
    match (old_node, new_node) {
        (Node::Text { content: c1 }, Node::Text { content: c2 }) => {
            if !(*c1 == *c2) {
                out.push(Patch::ChangeText(idx, c2.clone()));
            }
            proof {
                assert(patches_view(out@) =~= patches_view(old(out)@) + diff_spec(
                    old_node@,
                    new_node@,
                    idx as int,
                ));
            }
        },
        (
            Node::Element { tag: t1, attributes: a1, children: cs1 },
            Node::Element { tag: t2, attributes: a2, children: cs2 },
        ) => {
            if *t1 == *t2 {
                let ghost base = patches_view(out@);
                let ghost co = children_view(cs1@, cs1@.len() as int);
                let ghost cn = children_view(cs2@, cs2@.len() as int);
                proof {
                    lemma_children_view(cs1@, cs1@.len() as int);
                    lemma_children_view(cs2@, cs2@.len() as int);
                }
                diff_attributes(t1, a1, a2, idx, out);
                let shared: usize = if cs1.len() < cs2.len() {
                    cs1.len()
                } else {
                    cs2.len()
                };
                let mut child_idx: usize = idx + 1;
                let mut k: usize = 0;
                while k < shared
                    invariant
                        k <= shared,
                        shared == if co.len() < cn.len() {
                            co.len()
                        } else {
                            cn.len()
                        },
                        co == children_view(cs1@, cs1@.len() as int),
                        cn == children_view(cs2@, cs2@.len() as int),
                        co.len() == cs1@.len(),
                        cn.len() == cs2@.len(),
                        forall|j: int| 0 <= j < co.len() ==> co[j] == cs1@[j]@,
                        forall|j: int| 0 <= j < cn.len() ==> cn[j] == cs2@[j]@,
                        old_node@ matches NodeView::Element { children: c2, .. } && c2 == co,
                        idx + node_size(old_node@) <= usize::MAX,
                        child_idx as int == idx + 1 + subtree_sizes(co, k as int),
                        patches_view(out@) + diff_children(co, cn, k as int, child_idx as int)
                            == base + own_patches(
                            t1@,
                            attrs_view(a1@),
                            attrs_view(a2@),
                            idx as int,
                        ) + diff_children(co, cn, 0, idx + 1),
                    decreases shared - k,
                {
                    proof {
                        lemma_subtree_sizes_step(co, k as int);
                        lemma_subtree_sizes_mono(co, k + 1, co.len() as int);
                        assert(decreases_to!(old_node@ => old_node@->Element_children));
                        assert(decreases_to!(
                            old_node@->Element_children => old_node@->Element_children[k as int]
                        ));
                        assert(old_node@->Element_children[k as int] == cs1@[k as int]@);
                    }
                    let ghost before = patches_view(out@);
                    let c = node_count(&cs1[k]);
                    diff_node(&cs1[k], &cs2[k], child_idx, out);
                    proof {
                        assert((before + diff_spec(co[k as int], cn[k as int], child_idx as int))
                            + diff_children(
                            co,
                            cn,
                            k + 1,
                            child_idx + node_size(co[k as int]),
                        ) =~= before + (diff_spec(co[k as int], cn[k as int], child_idx as int)
                            + diff_children(co, cn, k + 1, child_idx + node_size(co[k as int]))));
                    }
                    child_idx = child_idx + c;
                    k = k + 1;
                }
                proof {
                    assert(diff_children(co, cn, shared as int, child_idx as int)
                        =~= Seq::<PatchView>::empty());
                    assert(patches_view(out@) + Seq::<PatchView>::empty() =~= patches_view(out@));
                    assert(patches_view(out@) =~= base + own_patches(
                        t1@,
                        attrs_view(a1@),
                        attrs_view(a2@),
                        idx as int,
                    ) + diff_children(co, cn, 0, idx + 1));
                }
                let ghost mid = patches_view(out@);
                if cs2.len() > cs1.len() {
                    let mut surplus: Vec<Node> = Vec::new();
                    let mut j: usize = cs1.len();
                    while j < cs2.len()
                        invariant
                            cs1@.len() <= j <= cs2@.len(),
                            cn == children_view(cs2@, cs2@.len() as int),
                            cn.len() == cs2@.len(),
                            forall|i2: int| 0 <= i2 < cn.len() ==> cn[i2] == cs2@[i2]@,
                            surplus@.len() == j - cs1@.len(),
                            forall|i2: int|
                                0 <= i2 < surplus@.len() ==> surplus@[i2]@ == cn[cs1@.len() + i2],
                        decreases cs2@.len() - j,
                    {
                        let c = cs2[j].deep_clone();
                        surplus.push(c);
                        j = j + 1;
                    }
                    proof {
                        lemma_children_view(surplus@, surplus@.len() as int);
                        assert(children_view(surplus@, surplus@.len() as int) =~= cn.skip(
                            co.len() as int,
                        ));
                    }
                    out.push(Patch::AppendChildren(t1.clone(), idx, surplus));
                    proof {
                        assert(out@.last()@ == PatchView::AppendChildren(
                            t1@,
                            idx as int,
                            cn.skip(co.len() as int),
                        ));
                        assert(count_patch(t1@, idx as int, co, cn) =~= seq![out@.last()@]);
                        assert(patches_view(out@) =~= mid + count_patch(t1@, idx as int, co, cn));
                    }
                } else if cs2.len() < cs1.len() {
                    out.push(Patch::TruncateChildren(t1.clone(), idx, cs2.len()));
                    proof {
                        assert(out@.last()@ == PatchView::TruncateChildren(
                            t1@,
                            idx as int,
                            cs2@.len() as int,
                        ));
                        assert(count_patch(t1@, idx as int, co, cn) =~= seq![out@.last()@]);
                        assert(patches_view(out@) =~= mid + count_patch(t1@, idx as int, co, cn));
                    }
                }
                proof {
                    assert(patches_view(out@) =~= mid + count_patch(t1@, idx as int, co, cn));
                    assert(patches_view(out@) =~= base + (own_patches(
                        t1@,
                        attrs_view(a1@),
                        attrs_view(a2@),
                        idx as int,
                    ) + diff_children(co, cn, 0, idx + 1) + count_patch(t1@, idx as int, co, cn)));
                    assert(patches_view(out@) =~= patches_view(old(out)@) + diff_spec(
                        old_node@,
                        new_node@,
                        idx as int,
                    ));
                }
            } else {
                let replacement = new_node.deep_clone();
                out.push(Patch::Replace(t1.clone(), idx, replacement));
                proof {
                    assert(patches_view(out@) =~= patches_view(old(out)@) + diff_spec(
                        old_node@,
                        new_node@,
                        idx as int,
                    ));
                }
            }
        },
        _ => {
            let tag: String = match old_node {
                Node::Element { tag, .. } => tag.clone(),
                Node::Text { .. } => String::new(),
            };
            let replacement = new_node.deep_clone();
            out.push(Patch::Replace(tag, idx, replacement));
            proof {
                assert(patches_view(out@) =~= patches_view(old(out)@) + diff_spec(
                    old_node@,
                    new_node@,
                    idx as int,
                ));
            }
        },
    }
}

} // verus!
