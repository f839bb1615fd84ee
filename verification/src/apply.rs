use vstd::prelude::*;

use crate::node::{
    attrs_view, children_view, lemma_children_view, lemma_subtree_sizes_mono,
    lemma_subtree_sizes_step, lookup, lookup_at, node_size, subtree_sizes, tag_of, Attribute,
    AttrView, Node, NodeView,
};
use crate::patch::{patches_view, Patch, PatchView};
use crate::diff::node_count;

verus! {

/// Why a patch list could not be applied.
#[derive(Clone, Copy, PartialEq, Eq, Structural, Debug)]
pub enum ApplyError {
    /// The live tree does not match the indexing the patch list assumes:
    /// a visited node's tag differs from the patch's recorded tag, or a
    /// patch was left over that no visited node could consume. The live
    /// tree has drifted from the snapshot the patches were computed for,
    /// and the apply pass aborts.
    StructuralMismatch,
}

/// `s` with `a` bound: the first attribute of the same name is replaced
/// whole, or `a` is appended when the name is fresh; searching from `i`.
pub open spec fn upsert_at(s: Seq<AttrView>, a: AttrView, i: int) -> Seq<AttrView>
    decreases s.len() - i,
{
    if i < 0 || i >= s.len() {
        s.push(a)
    } else if s[i].name == a.name {
        s.update(i, a)
    } else {
        upsert_at(s, a, i + 1)
    }
}

/// `s` with `a` bound, replacing the first same-named attribute whole.
pub open spec fn upsert(s: Seq<AttrView>, a: AttrView) -> Seq<AttrView> {
    upsert_at(s, a, 0)
}

/// `s` with the first `i` of `adds` bound, in order.
pub open spec fn upsert_all(s: Seq<AttrView>, adds: Seq<AttrView>, i: int) -> Seq<AttrView>
    decreases i,
{
    if i <= 0 || i > adds.len() {
        s
    } else {
        upsert(upsert_all(s, adds, i - 1), adds[i - 1])
    }
}

/// The first `i` entries of `s` with every attribute named `name` dropped.
pub open spec fn remove_name_upto(s: Seq<AttrView>, name: Seq<char>, i: int) -> Seq<AttrView>
    decreases i,
{
    if i <= 0 || i > s.len() {
        Seq::empty()
    } else {
        remove_name_upto(s, name, i - 1) + (if s[i - 1].name == name {
            Seq::empty()
        } else {
            seq![s[i - 1]]
        })
    }
}

/// `s` with every attribute named `name` dropped.
pub open spec fn remove_name(s: Seq<AttrView>, name: Seq<char>) -> Seq<AttrView> {
    remove_name_upto(s, name, s.len() as int)
}

/// `s` with the first `i` of `names` unbound, in order.
pub open spec fn remove_all(s: Seq<AttrView>, names: Seq<Seq<char>>, i: int) -> Seq<AttrView>
    decreases i,
{
    if i <= 0 || i > names.len() {
        s
    } else {
        remove_name(remove_all(s, names, i - 1), names[i - 1])
    }
}

/// Consume a pending add-attributes patch for the node at `idx`, if one
/// stands next; a recorded tag that disagrees with the node's is a
/// structural mismatch.
pub open spec fn step_add_attrs(
    tag: Seq<char>,
    attrs: Seq<AttrView>,
    ps: Seq<PatchView>,
    idx: int,
) -> Option<(Seq<AttrView>, Seq<PatchView>)> {
    if ps.len() > 0 && (ps[0] matches PatchView::AddAttributes(t, i, adds) && i == idx) {
        match ps[0] {
            PatchView::AddAttributes(t, i, adds) => if t == tag {
                Some((upsert_all(attrs, adds, adds.len() as int), ps.drop_first()))
            } else {
                None
            },
            _ => None,
        }
    } else {
        Some((attrs, ps))
    }
}

/// Consume a pending remove-attributes patch for the node at `idx`.
pub open spec fn step_remove_attrs(
    tag: Seq<char>,
    attrs: Seq<AttrView>,
    ps: Seq<PatchView>,
    idx: int,
) -> Option<(Seq<AttrView>, Seq<PatchView>)> {
    if ps.len() > 0 && (ps[0] matches PatchView::RemoveAttributes(t, i, names) && i == idx) {
        match ps[0] {
            PatchView::RemoveAttributes(t, i, names) => if t == tag {
                Some((remove_all(attrs, names, names.len() as int), ps.drop_first()))
            } else {
                None
            },
            _ => None,
        }
    } else {
        Some((attrs, ps))
    }
}

/// Consume a pending add-listeners patch for the node at `idx`.
pub open spec fn step_add_listeners(
    tag: Seq<char>,
    attrs: Seq<AttrView>,
    ps: Seq<PatchView>,
    idx: int,
) -> Option<(Seq<AttrView>, Seq<PatchView>)> {
    if ps.len() > 0 && (ps[0] matches PatchView::AddEventListener(t, i, adds) && i == idx) {
        match ps[0] {
            PatchView::AddEventListener(t, i, adds) => if t == tag {
                Some((upsert_all(attrs, adds, adds.len() as int), ps.drop_first()))
            } else {
                None
            },
            _ => None,
        }
    } else {
        Some((attrs, ps))
    }
}

/// Consume a pending remove-listeners patch for the node at `idx`.
pub open spec fn step_remove_listeners(
    tag: Seq<char>,
    attrs: Seq<AttrView>,
    ps: Seq<PatchView>,
    idx: int,
) -> Option<(Seq<AttrView>, Seq<PatchView>)> {
    if ps.len() > 0 && (ps[0] matches PatchView::RemoveEventListener(t, i, names) && i == idx) {
        match ps[0] {
            PatchView::RemoveEventListener(t, i, names) => if t == tag {
                Some((remove_all(attrs, names, names.len() as int), ps.drop_first()))
            } else {
                None
            },
            _ => None,
        }
    } else {
        Some((attrs, ps))
    }
}

/// Consume a pending child-count patch for the node at `idx`: append the
/// carried children, or keep only the first `len`.
pub open spec fn step_count(
    tag: Seq<char>,
    kids: Seq<NodeView>,
    ps: Seq<PatchView>,
    idx: int,
) -> Option<(Seq<NodeView>, Seq<PatchView>)> {
    if ps.len() > 0 && (ps[0] matches PatchView::AppendChildren(t, i, extra) && i == idx) {
        match ps[0] {
            PatchView::AppendChildren(t, i, extra) => if t == tag {
                Some((kids + extra, ps.drop_first()))
            } else {
                None
            },
            _ => None,
        }
    } else if ps.len() > 0 && (ps[0] matches PatchView::TruncateChildren(t, i, len) && i == idx) {
        match ps[0] {
            PatchView::TruncateChildren(t, i, len) => if t == tag {
                Some(
                    (
                        if 0 <= len <= kids.len() {
                            kids.take(len)
                        } else {
                            kids
                        },
                        ps.drop_first(),
                    ),
                )
            } else {
                None
            },
            _ => None,
        }
    } else {
        Some((kids, ps))
    }
}

/// Consume the node's pending attribute and listener patches, in emission
/// order: plain adds, plain removes, listener adds, listener removes.
pub open spec fn apply_attr_patches(
    tag: Seq<char>,
    attrs: Seq<AttrView>,
    ps: Seq<PatchView>,
    idx: int,
) -> Option<(Seq<AttrView>, Seq<PatchView>)> {
    match step_add_attrs(tag, attrs, ps, idx) {
        None => None,
        Some((a1, p1)) => match step_remove_attrs(tag, a1, p1, idx) {
            None => None,
            Some((a2, p2)) => match step_add_listeners(tag, a2, p2, idx) {
                None => None,
                Some((a3, p3)) => step_remove_listeners(tag, a3, p3, idx),
            },
        },
    }
}

/// Apply the pending patches to the subtree `live`, rooted at depth-first
/// index `idx`: consume a replacement or text change addressed to this node,
/// else this node's attribute patches, then the children's patches in order,
/// then this node's child-count patch. The result is the patched subtree and
/// the patches left for the traversal's continuation; `None` is a structural
/// mismatch.
pub open spec fn apply_node_spec(live: NodeView, ps: Seq<PatchView>, idx: int) -> Option<
    (NodeView, Seq<PatchView>),
>
    decreases live, 1int,
{
    if ps.len() > 0 && (ps[0] matches PatchView::Replace(t, i, n) && i == idx) {
        match ps[0] {
            PatchView::Replace(t, i, n) => if t == tag_of(live) {
                Some((n, ps.drop_first()))
            } else {
                None
            },
            _ => None,
        }
    } else {
        match live {
            NodeView::Text { content } => {
                if ps.len() > 0 && (ps[0] matches PatchView::ChangeText(i, s) && i == idx) {
                    match ps[0] {
                        PatchView::ChangeText(i, s) => Some(
                            (NodeView::Text { content: s }, ps.drop_first()),
                        ),
                        _ => None,
                    }
                } else {
                    Some((live, ps))
                }
            },
            NodeView::Element { tag, attrs, children } => {
                match apply_attr_patches(tag, attrs, ps, idx) {
                    None => None,
                    Some((attrs4, ps4)) => match apply_children_spec(children, ps4, 0, idx + 1) {
                        None => None,
                        Some((kids, ps5)) => match step_count(tag, kids, ps5, idx) {
                            None => None,
                            Some((kids2, ps6)) => Some(
                                (NodeView::Element { tag, attrs: attrs4, children: kids2 }, ps6),
                            ),
                        },
                    },
                }
            },
        }
    }
}

/// Apply the pending patches to the children `k` and beyond, with child `k`
/// rooted at index `idx`, in order.
pub open spec fn apply_children_spec(
    cs: Seq<NodeView>,
    ps: Seq<PatchView>,
    k: int,
    idx: int,
) -> Option<(Seq<NodeView>, Seq<PatchView>)>
    decreases cs, cs.len() - k,
{
    if k < 0 || k >= cs.len() {
        Some((Seq::empty(), ps))
    } else {
        match apply_node_spec(cs[k], ps, idx) {
            None => None,
            Some((n2, ps2)) => match apply_children_spec(cs, ps2, k + 1, idx + node_size(cs[k])) {
                None => None,
                Some((rest, ps3)) => Some((seq![n2] + rest, ps3)),
            },
        }
    }
}

/// `upsert` updates the first same-named entry in place.
proof fn lemma_upsert_found(s: Seq<AttrView>, a: AttrView, i: int, j: int)
    requires
        0 <= i <= j < s.len(),
        s[j].name == a.name,
        forall|k: int| i <= k < j ==> s[k].name != a.name,
    ensures
        upsert_at(s, a, i) == s.update(j, a),
    decreases j - i,
{
    if i < j {
        lemma_upsert_found(s, a, i + 1, j);
    }
}

/// `upsert` of a fresh name appends.
proof fn lemma_upsert_missing(s: Seq<AttrView>, a: AttrView, i: int)
    requires
        0 <= i,
        forall|k: int| i <= k < s.len() ==> s[k].name != a.name,
    ensures
        upsert_at(s, a, i) == s.push(a),
    decreases s.len() - i,
{
    if i < s.len() {
        lemma_upsert_missing(s, a, i + 1);
    }
}

/// Bind one attribute on the live attribute collection.
fn upsert_attr(attrs: &mut Vec<Attribute>, a: &Attribute)
    ensures
        attrs_view(final(attrs)@) == upsert(attrs_view(old(attrs)@), a@),
{
    let ghost s = attrs_view(old(attrs)@);
    let mut i: usize = 0;
    while i < attrs.len()
        invariant
            i <= attrs.len(),
            s == attrs_view(old(attrs)@),
            s == attrs_view(attrs@),
            forall|k: int| 0 <= k < i ==> s[k].name != a@.name,
        decreases attrs.len() - i,
    {
        if attrs[i].name == a.name {
            attrs.set(i, a.deep_clone());
            proof {
                lemma_upsert_found(s, a@, 0, i as int);
                assert(upsert(s, a@) == s.update(i as int, a@));
                assert(attrs_view(attrs@) =~= s.update(i as int, a@));
            }
            return ;
        }
        i = i + 1;
    }
    attrs.push(a.deep_clone());
    proof {
        lemma_upsert_missing(s, a@, 0);
        assert(attrs_view(attrs@) =~= s.push(a@));
    }
}

/// Bind every attribute that an add patch carries, in order.
fn apply_adds(attrs: &mut Vec<Attribute>, adds: &Vec<Attribute>)
    ensures
        attrs_view(final(attrs)@) == upsert_all(
            attrs_view(old(attrs)@),
            attrs_view(adds@),
            adds@.len() as int,
        ),
{
    let ghost s0 = attrs_view(old(attrs)@);
    let ghost av = attrs_view(adds@);
    let mut i: usize = 0;
    while i < adds.len()
        invariant
            i <= adds.len(),
            s0 == attrs_view(old(attrs)@),
            av == attrs_view(adds@),
            attrs_view(attrs@) == upsert_all(s0, av, i as int),
        decreases adds.len() - i,
    {
        upsert_attr(attrs, &adds[i]);
        i = i + 1;
    }
}

/// Unbind every attribute with the given name.
fn remove_attr(attrs: &Vec<Attribute>, name: &String) -> (r: Vec<Attribute>)
    ensures
        attrs_view(r@) == remove_name(attrs_view(attrs@), name@),
{
    let ghost s = attrs_view(attrs@);
    let mut r: Vec<Attribute> = Vec::new();
    let mut i: usize = 0;
    while i < attrs.len()
        invariant
            i <= attrs.len(),
            s == attrs_view(attrs@),
            attrs_view(r@) == remove_name_upto(s, name@, i as int),
        decreases attrs.len() - i,
    {
        if !(attrs[i].name == *name) {
            let c = attrs[i].deep_clone();
            r.push(c);
        }
        i = i + 1;
        proof {
            assert(attrs_view(r@) =~= remove_name_upto(s, name@, i as int));
        }
    }
    r
}

/// Unbind every name that a remove patch carries, in order.
fn apply_removes(attrs: &mut Vec<Attribute>, names: &Vec<String>)
    ensures
        attrs_view(final(attrs)@) == remove_all(
            attrs_view(old(attrs)@),
            crate::node::names_view(names@),
            names@.len() as int,
        ),
{
    let ghost s0 = attrs_view(old(attrs)@);
    let ghost nv = crate::node::names_view(names@);
    let mut i: usize = 0;
    while i < names.len()
        invariant
            i <= names.len(),
            s0 == attrs_view(old(attrs)@),
            nv == crate::node::names_view(names@),
            attrs_view(attrs@) == remove_all(s0, nv, i as int),
        decreases names.len() - i,
    {
        let next = remove_attr(attrs, &names[i]);
        *attrs = next;
        i = i + 1;
    }
}

/// A copy of the attribute collection with the same view.
fn clone_attrs(attrs: &Vec<Attribute>) -> (r: Vec<Attribute>)
    ensures
        attrs_view(r@) == attrs_view(attrs@),
{
    let mut r: Vec<Attribute> = Vec::new();
    let mut i: usize = 0;
    while i < attrs.len()
        invariant
            i <= attrs.len(),
            r@.len() == i as int,
            forall|j: int| 0 <= j < i ==> r@[j]@ == #[trigger] attrs@[j]@,
        decreases attrs.len() - i,
    {
        let c = attrs[i].deep_clone();
        r.push(c);
        i = i + 1;
    }
    proof {
        assert(attrs_view(r@) =~= attrs_view(attrs@));
    }
    r
}

} // verus!


verus! {

/// Whether the recorded tag matches the live node's: an element's tag, or
/// the empty string for a text leaf.
fn tag_matches(t: &String, live: &Node) -> (r: bool)
    ensures
        r == (t@ == tag_of(live@)),
{
    match live {
        Node::Element { tag, .. } => *t == *tag,
        Node::Text { .. } => *t == String::new(),
    }
}

/// Consume the attribute and listener patches pending for the element at
/// `idx`, starting from cursor `pos`, on a copy of its attributes.
#[verifier::loop_isolation(false)]
fn apply_own_patches(
    tag: &String,
    attributes: &Vec<Attribute>,
    patches: &Vec<Patch>,
    pos: usize,
    idx: usize,
) -> (r: Result<(Vec<Attribute>, usize), ApplyError>)
    requires
        pos <= patches@.len(),
    ensures
        match r {
            Ok(p) => pos <= p.1 <= patches@.len() && apply_attr_patches(
                tag@,
                attrs_view(attributes@),
                patches_view(patches@).skip(pos as int),
                idx as int,
            ) == Some((attrs_view(p.0@), patches_view(patches@).skip(p.1 as int))),
            Err(_) => apply_attr_patches(
                tag@,
                attrs_view(attributes@),
                patches_view(patches@).skip(pos as int),
                idx as int,
            ) is None,
        },
{
    let ghost pv = patches_view(patches@);
    let ghost a0 = attrs_view(attributes@);
    let ghost rem = pv.skip(pos as int);
    let mut attrs = clone_attrs(attributes);
    let mut pos2 = pos;
    if pos2 < patches.len() {
        if let Patch::AddAttributes(t, i, adds) = &patches[pos2] {
            if *i == idx {
                if !(*t == *tag) {
                    proof {
                        assert(step_add_attrs(tag@, a0, rem, idx as int) is None);
                    }
                    return Err(ApplyError::StructuralMismatch);
                }
                apply_adds(&mut attrs, adds);
                pos2 = pos2 + 1;
                proof {
                    assert(rem.drop_first() =~= pv.skip(pos2 as int));
                }
            }
        }
    }
    let ghost s1 = attrs_view(attrs@);
    let ghost r1 = pv.skip(pos2 as int);
    proof {
        if rem.len() > 0 {
            assert(rem[0] == pv[pos as int]);
        }
        assert(step_add_attrs(tag@, a0, rem, idx as int) == Some((s1, r1)));
    }
    if pos2 < patches.len() {
        if let Patch::RemoveAttributes(t, i, names) = &patches[pos2] {
            if *i == idx {
                if !(*t == *tag) {
                    proof {
                        assert(step_remove_attrs(tag@, s1, r1, idx as int) is None);
                    }
                    return Err(ApplyError::StructuralMismatch);
                }
                apply_removes(&mut attrs, names);
                proof {
                    assert(r1.drop_first() =~= pv.skip(pos2 as int + 1));
                }
                pos2 = pos2 + 1;
            }
        }
    }
    let ghost s2 = attrs_view(attrs@);
    let ghost r2 = pv.skip(pos2 as int);
    proof {
        if r1.len() > 0 {
            assert(r1[0] == pv[pv.len() - r1.len()]);
        }
        assert(step_remove_attrs(tag@, s1, r1, idx as int) == Some((s2, r2)));
    }
    if pos2 < patches.len() {
        if let Patch::AddEventListener(t, i, adds) = &patches[pos2] {
            if *i == idx {
                if !(*t == *tag) {
                    proof {
                        assert(step_add_listeners(tag@, s2, r2, idx as int) is None);
                    }
                    return Err(ApplyError::StructuralMismatch);
                }
                apply_adds(&mut attrs, adds);
                proof {
                    assert(r2.drop_first() =~= pv.skip(pos2 as int + 1));
                }
                pos2 = pos2 + 1;
            }
        }
    }
    let ghost s3 = attrs_view(attrs@);
    let ghost r3 = pv.skip(pos2 as int);
    proof {
        if r2.len() > 0 {
            assert(r2[0] == pv[pv.len() - r2.len()]);
        }
        assert(step_add_listeners(tag@, s2, r2, idx as int) == Some((s3, r3)));
    }
    if pos2 < patches.len() {
        if let Patch::RemoveEventListener(t, i, names) = &patches[pos2] {
            if *i == idx {
                if !(*t == *tag) {
                    proof {
                        assert(step_remove_listeners(tag@, s3, r3, idx as int) is None);
                    }
                    return Err(ApplyError::StructuralMismatch);
                }
                apply_removes(&mut attrs, names);
                proof {
                    assert(r3.drop_first() =~= pv.skip(pos2 as int + 1));
                }
                pos2 = pos2 + 1;
            }
        }
    }
    proof {
        if r3.len() > 0 {
            assert(r3[0] == pv[pv.len() - r3.len()]);
        }
        assert(step_remove_listeners(tag@, s3, r3, idx as int) == Some((
            attrs_view(attrs@),
            pv.skip(pos2 as int),
        )));
    }
    Ok((attrs, pos2))
}

/// Consume the child-count patch pending for the element at `idx`, starting
/// from cursor `pos`, on its already patched children.
#[verifier::loop_isolation(false)]
fn apply_count_patch(
    tag: &String,
    kids: Vec<Node>,
    patches: &Vec<Patch>,
    pos: usize,
    idx: usize,
) -> (r: Result<(Vec<Node>, usize), ApplyError>)
    requires
        pos <= patches@.len(),
    ensures
        match r {
            Ok(p) => pos <= p.1 <= patches@.len() && step_count(
                tag@,
                children_view(kids@, kids@.len() as int),
                patches_view(patches@).skip(pos as int),
                idx as int,
            ) == Some(
                (
                    children_view(p.0@, p.0@.len() as int),
                    patches_view(patches@).skip(p.1 as int),
                ),
            ),
            Err(_) => step_count(
                tag@,
                children_view(kids@, kids@.len() as int),
                patches_view(patches@).skip(pos as int),
                idx as int,
            ) is None,
        },
{
    let ghost pv = patches_view(patches@);
    let ghost kv = children_view(kids@, kids@.len() as int);
    let ghost rem = pv.skip(pos as int);
    proof {
        lemma_children_view(kids@, kids@.len() as int);
        if rem.len() > 0 {
            assert(rem[0] == pv[pos as int]);
        }
    }
    let mut kids = kids;
    if pos < patches.len() {
        match &patches[pos] {
            Patch::AppendChildren(t, i, extra) => {
                if *i == idx {
                    if !(*t == *tag) {
                        return Err(ApplyError::StructuralMismatch);
                    }
                    let ghost base = kids@;
                    let mut j: usize = 0;
                    while j < extra.len()
                        invariant
                            j <= extra@.len(),
                            kids@.len() == base.len() + j as int,
                            forall|m: int| 0 <= m < base.len() ==> kids@[m] == base[m],
                            forall|m: int|
                                0 <= m < j ==> kids@[base.len() + m]@ == #[trigger] extra@[m]@,
                        decreases extra@.len() - j,
                    {
                        let c = extra[j].deep_clone();
                        kids.push(c);
                        j = j + 1;
                    }
                    proof {
                        lemma_children_view(kids@, kids@.len() as int);
                        lemma_children_view(extra@, extra@.len() as int);
                        lemma_children_view(base, base.len() as int);
                        assert forall|m: int| 0 <= m < kids@.len() implies children_view(
                            kids@,
                            kids@.len() as int,
                        )[m] == (kv + children_view(extra@, extra@.len() as int))[m] by {
                            if m < base.len() {
                                assert(kids@[m] == base[m]);
                            } else {
                                assert(kids@[m]@ == extra@[m - base.len()]@);
                            }
                        }
                        assert(children_view(kids@, kids@.len() as int) =~= kv + children_view(
                            extra@,
                            extra@.len() as int,
                        ));
                        assert(rem.drop_first() =~= pv.skip(pos as int + 1));
                    }
                    return Ok((kids, pos + 1));
                }
            },
            Patch::TruncateChildren(t, i, len2) => {
                if *i == idx {
                    if !(*t == *tag) {
                        return Err(ApplyError::StructuralMismatch);
                    }
                    let keep = *len2;
                    kids.truncate(keep);
                    proof {
                        lemma_children_view(kids@, kids@.len() as int);
                        if keep <= kv.len() {
                            assert(children_view(kids@, kids@.len() as int) =~= kv.take(
                                keep as int,
                            ));
                        } else {
                            assert(children_view(kids@, kids@.len() as int) =~= kv);
                        }
                        assert(rem.drop_first() =~= pv.skip(pos as int + 1));
                    }
                    return Ok((kids, pos + 1));
                }
            },
            _ => {},
        }
    }
    Ok((kids, pos))
}

/// Apply the pending patches to the live subtree rooted at depth-first index
/// `idx`, starting at patch cursor `pos`: the executable mirror of
/// `apply_node_spec`. Returns the patched subtree and the new cursor.
#[verifier::loop_isolation(false)]
#[verifier::rlimit(60)]
fn apply_node(live: &Node, patches: &Vec<Patch>, pos: usize, idx: usize) -> (r: Result<
    (Node, usize),
    ApplyError,
>)
    requires
        pos <= patches@.len(),
        idx + node_size(live@) <= usize::MAX,
    ensures
        match r {
            Ok(p) => pos <= p.1 <= patches@.len() && apply_node_spec(
                live@,
                patches_view(patches@).skip(pos as int),
                idx as int,
            ) == Some((p.0@, patches_view(patches@).skip(p.1 as int))),
            Err(_) => apply_node_spec(
                live@,
                patches_view(patches@).skip(pos as int),
                idx as int,
            ) is None,
        },
    decreases live@,
{
    let ghost pv = patches_view(patches@);
    let ghost rem = pv.skip(pos as int);
    if pos < patches.len() {
        if let Patch::Replace(t, i, n) = &patches[pos] {
            if *i == idx {
                proof {
                    assert(rem[0] == pv[pos as int]);
                    assert(rem.drop_first() =~= pv.skip(pos as int + 1));
                }
                if tag_matches(t, live) {
                    let rep = n.deep_clone();
                    return Ok((rep, pos + 1));
                } else {
                    return Err(ApplyError::StructuralMismatch);
                }
            }
        }
    }
    proof {
        if rem.len() > 0 {
            assert(rem[0] == pv[pos as int]);
        }
        assert(!(rem.len() > 0 && (rem[0] matches PatchView::Replace(t, i, n) && i
            == idx as int)));
    }
    match live {
        Node::Text { .. } => {
            if pos < patches.len() {
                if let Patch::ChangeText(i, s2) = &patches[pos] {
                    if *i == idx {
                        proof {
                            assert(rem.drop_first() =~= pv.skip(pos as int + 1));
                        }
                        return Ok((Node::Text { content: s2.clone() }, pos + 1));
                    }
                }
            }
            let copy = live.deep_clone();
            proof {
                assert(apply_node_spec(live@, rem, idx as int) == Some((live@, rem)));
            }
            Ok((copy, pos))
        },
        Node::Element { tag, attributes, children } => {
            let ghost a0 = attrs_view(attributes@);
            let ghost co = children_view(children@, children@.len() as int);
            proof {
                lemma_children_view(children@, children@.len() as int);
                assert(live@ == (NodeView::Element { tag: tag@, attrs: a0, children: co }));
            }
            let own = apply_own_patches(tag, attributes, patches, pos, idx);
            let (attrs, pos4) = match own {
                Ok(p) => p,
                Err(e) => {
                    proof {
                        assert(apply_node_spec(live@, rem, idx as int) is None);
                    }
                    return Err(e);
                },
            };
            let ghost s4 = attrs_view(attrs@);
            let ghost r4 = pv.skip(pos4 as int);
            let mut kids: Vec<Node> = Vec::new();
            let mut cpos: usize = pos4;
            let mut child_idx: usize = idx + 1;
            let mut k: usize = 0;
            while k < children.len()
                invariant
                    k <= children@.len(),
                    pos <= cpos,
                    cpos <= patches@.len(),
                    kids@.len() == k as int,
                    child_idx as int == idx + 1 + subtree_sizes(co, k as int),
                    match apply_children_spec(co, pv.skip(cpos as int), k as int, child_idx as int) {
                        None => apply_children_spec(co, r4, 0, idx + 1) is None,
                        Some(t) => apply_children_spec(co, r4, 0, idx + 1) == Some(
                            (children_view(kids@, kids@.len() as int) + t.0, t.1),
                        ),
                    },
                decreases children@.len() - k,
            {
                proof {
                    lemma_subtree_sizes_step(co, k as int);
                    lemma_subtree_sizes_mono(co, k + 1, co.len() as int);
                    assert(decreases_to!(live@ => live@->Element_children));
                    assert(decreases_to!(
                        live@->Element_children => live@->Element_children[k as int]
                    ));
                    assert(live@->Element_children[k as int] == children@[k as int]@);
                }
                let ghost kv_old = children_view(kids@, kids@.len() as int);
                let csize = node_count(&children[k]);
                let rr = apply_node(&children[k], patches, cpos, child_idx);
                match rr {
                    Err(e) => {
                        proof {
                            assert(apply_children_spec(
                                co,
                                pv.skip(cpos as int),
                                k as int,
                                child_idx as int,
                            ) is None);
                            assert(apply_node_spec(live@, rem, idx as int) is None);
                        }
                        return Err(e);
                    },
                    Ok(pair) => {
                        let (n2, cpos2) = pair;
                        proof {
                            let inner = apply_children_spec(
                                co,
                                pv.skip(cpos2 as int),
                                k + 1,
                                child_idx + node_size(co[k as int]),
                            );
                            if inner is Some {
                                let t = inner.unwrap();
                                lemma_children_view(kids@, kids@.len() as int);
                                lemma_children_view(kids@.push(n2), kids@.len() as int + 1);
                                assert(apply_children_spec(
                                    co,
                                    pv.skip(cpos as int),
                                    k as int,
                                    child_idx as int,
                                ) == Some((seq![n2@] + t.0, t.1)));
                                assert(kv_old + (seq![n2@] + t.0) =~= children_view(
                                    kids@.push(n2),
                                    kids@.len() as int + 1,
                                ) + t.0);
                            } else {
                                assert(apply_children_spec(
                                    co,
                                    pv.skip(cpos as int),
                                    k as int,
                                    child_idx as int,
                                ) is None);
                            }
                        }
                        kids.push(n2);
                        cpos = cpos2;
                        child_idx = child_idx + csize;
                        k = k + 1;
                    },
                }
            }
            let ghost kv = children_view(kids@, kids@.len() as int);
            let ghost r5 = pv.skip(cpos as int);
            proof {
                assert(apply_children_spec(co, r5, k as int, child_idx as int) == Some((
                    Seq::<NodeView>::empty(),
                    r5,
                )));
                assert(kv + Seq::<NodeView>::empty() =~= kv);
                assert(apply_children_spec(co, r4, 0, idx + 1) == Some((kv, r5)));
            }
            let counted = apply_count_patch(tag, kids, patches, cpos, idx);
            let (kids2, pos6) = match counted {
                Ok(p) => p,
                Err(e) => {
                    proof {
                        assert(apply_node_spec(live@, rem, idx as int) is None);
                    }
                    return Err(e);
                },
            };
            let node = Node::Element { tag: tag.clone(), attributes: attrs, children: kids2 };
            proof {
                assert(node@ == (NodeView::Element {
                    tag: tag@,
                    attrs: s4,
                    children: children_view(kids2@, kids2@.len() as int),
                }));
                assert(apply_node_spec(live@, rem, idx as int) == Some((
                    node@,
                    pv.skip(pos6 as int),
                )));
            }
            Ok((node, pos6))
        },
    }
}

/// Apply an ordered edit script to the live tree, in place. On success the
/// live tree becomes the tree the script was computed for; when the script
/// does not fit the live tree's shape, the pass aborts with a structural
/// mismatch and the live tree is left as it was.
pub fn apply_patches(live: &mut Node, patches: &Vec<Patch>) -> (r: Result<(), ApplyError>)
    requires
        node_size(old(live)@) <= usize::MAX,
    ensures
        match r {
            Ok(_) => apply_node_spec(old(live)@, patches_view(patches@), 0) matches Some(t)
                && final(live)@ == t.0 && t.1.len() == 0,
            Err(_) => final(live)@ == old(live)@ && !(apply_node_spec(
                old(live)@,
                patches_view(patches@),
                0,
            ) matches Some(t) && t.1.len() == 0),
        },
{
    proof {
        assert(patches_view(patches@).skip(0) =~= patches_view(patches@));
    }
    let rr = apply_node(&*live, patches, 0, 0);
    match rr {
        Ok(pair) => {
            let (n, pos) = pair;
            if pos == patches.len() {
                proof {
                    assert(patches_view(patches@).skip(pos as int) =~= Seq::<PatchView>::empty());
                }
                *live = n;
                Ok(())
            } else {
                proof {
                    assert(patches_view(patches@).skip(pos as int).len() > 0);
                }
                Err(ApplyError::StructuralMismatch)
            }
        },
        Err(e) => Err(e),
    }
}

} // verus!

verus! {

/// Looking a name up in `s` with `e` appended finds what `s` binds, or else
/// `e` when the names agree.
proof fn lemma_lookup_at_push(s: Seq<AttrView>, e: AttrView, i: int, k: Seq<char>)
    requires
        0 <= i <= s.len(),
    ensures
        lookup_at(s.push(e), i, k) == if lookup_at(s, i, k) is Some {
            lookup_at(s, i, k)
        } else if k == e.name {
            Some(e.value)
        } else {
            None
        },
    decreases s.len() - i,
{
    if i < s.len() {
        lemma_lookup_at_push(s, e, i + 1, k);
    } else {
        assert(lookup_at(s.push(e), i + 1, k) is None);
        assert(lookup_at(s, i, k) is None);
    }
}

/// Looking a name up in `s` with entry `j` replaced by a same-named
/// attribute: the replacement is found under that name when no earlier entry
/// shadows it, and every other name is untouched.
proof fn lemma_lookup_at_update(s: Seq<AttrView>, j: int, a: AttrView, i: int, k: Seq<char>)
    requires
        0 <= i <= s.len(),
        0 <= j < s.len(),
        s[j].name == a.name,
        forall|m: int| 0 <= m < j ==> s[m].name != a.name,
    ensures
        lookup_at(s.update(j, a), i, k) == if k == a.name && i <= j {
            Some(a.value)
        } else {
            lookup_at(s, i, k)
        },
    decreases s.len() - i,
{
    if i < s.len() {
        lemma_lookup_at_update(s, j, a, i + 1, k);
    }
}

/// What one upsert binds: the upserted attribute under its own name, and
/// whatever the collection bound under every other name.
pub proof fn lemma_lookup_upsert(s: Seq<AttrView>, a: AttrView, k: Seq<char>)
    ensures
        lookup(upsert(s, a), k) == if k == a.name {
            Some(a.value)
        } else {
            lookup(s, k)
        },
{
    lemma_lookup_upsert_at(s, a, 0, k);
}

/// As `lemma_lookup_upsert`, for the scan that starts at `i`.
proof fn lemma_lookup_upsert_at(s: Seq<AttrView>, a: AttrView, i: int, k: Seq<char>)
    requires
        0 <= i <= s.len(),
        forall|m: int| 0 <= m < i ==> s[m].name != a.name,
    ensures
        lookup(upsert_at(s, a, i), k) == if k == a.name {
            Some(a.value)
        } else {
            lookup(s, k)
        },
    decreases s.len() - i,
{
    if i >= s.len() {
        lemma_lookup_at_push(s, a, 0, k);
        if k == a.name {
            lemma_lookup_none_at(s, 0, k);
        }
    } else if s[i].name == a.name {
        lemma_lookup_at_update(s, i, a, 0, k);
    } else {
        lemma_lookup_upsert_at(s, a, i + 1, k);
    }
}

/// A name none of the entries carries is unbound.
proof fn lemma_lookup_none_at(s: Seq<AttrView>, i: int, k: Seq<char>)
    requires
        0 <= i <= s.len(),
        forall|m: int| 0 <= m < s.len() ==> s[m].name != k,
    ensures
        lookup_at(s, i, k) is None,
    decreases s.len() - i,
{
    if i < s.len() {
        lemma_lookup_none_at(s, i + 1, k);
    }
}

} // verus!

verus! {

/// Dropping every attribute named `n` from a prefix unbinds `n` there and
/// nothing else.
proof fn lemma_lookup_remove_upto(s: Seq<AttrView>, n: Seq<char>, i: int, k: Seq<char>)
    requires
        0 <= i <= s.len(),
    ensures
        lookup(remove_name_upto(s, n, i), k) == if k == n {
            None
        } else {
            lookup(s.take(i), k)
        },
    decreases i,
{
    if i > 0 {
        lemma_lookup_remove_upto(s, n, i - 1, k);
        let prev = remove_name_upto(s, n, i - 1);
        assert(s.take(i) =~= s.take(i - 1).push(s[i - 1]));
        lemma_lookup_at_push(s.take(i - 1), s[i - 1], 0, k);
        if s[i - 1].name == n {
            assert(remove_name_upto(s, n, i) =~= prev);
        } else {
            assert(remove_name_upto(s, n, i) =~= prev.push(s[i - 1]));
            lemma_lookup_at_push(prev, s[i - 1], 0, k);
        }
    } else {
        assert(lookup(remove_name_upto(s, n, i), k) is None);
        assert(lookup(s.take(i), k) is None);
    }
}

/// What removing a name unbinds: that name, and nothing else.
pub proof fn lemma_lookup_remove(s: Seq<AttrView>, n: Seq<char>, k: Seq<char>)
    ensures
        lookup(remove_name(s, n), k) == if k == n {
            None
        } else {
            lookup(s, k)
        },
{
    lemma_lookup_remove_upto(s, n, s.len() as int, k);
    assert(s.take(s.len() as int) =~= s);
}

/// What applying an add patch binds: each carried attribute under its own
/// name (the names being unique within a patch), and whatever the collection
/// bound before under every other name.
pub proof fn lemma_upsert_all_binds(s: Seq<AttrView>, adds: Seq<AttrView>, i: int)
    requires
        0 <= i <= adds.len(),
        forall|j1: int, j2: int| 0 <= j1 < j2 < adds.len() ==> adds[j1].name != adds[j2].name,
    ensures
        forall|j: int|
            0 <= j < i ==> lookup(upsert_all(s, adds, i), #[trigger] adds[j].name) == Some(
                adds[j].value,
            ),
        forall|k: Seq<char>|
            (forall|j: int| 0 <= j < i ==> adds[j].name != k) ==> #[trigger] lookup(
                upsert_all(s, adds, i),
                k,
            ) == lookup(s, k),
    decreases i,
{
    if i > 0 {
        lemma_upsert_all_binds(s, adds, i - 1);
        let prev = upsert_all(s, adds, i - 1);
        assert forall|j: int|
            0 <= j < i implies lookup(upsert_all(s, adds, i), #[trigger] adds[j].name) == Some(
            adds[j].value,
        ) by {
            lemma_lookup_upsert(prev, adds[i - 1], adds[j].name);
        }
        assert forall|k: Seq<char>|
            (forall|j: int| 0 <= j < i ==> adds[j].name != k) implies #[trigger] lookup(
            upsert_all(s, adds, i),
            k,
        ) == lookup(s, k) by {
            lemma_lookup_upsert(prev, adds[i - 1], k);
        }
    }
}

/// What applying a remove patch unbinds: each carried name, and nothing
/// else.
pub proof fn lemma_remove_all_unbinds(s: Seq<AttrView>, names: Seq<Seq<char>>, i: int)
    requires
        0 <= i <= names.len(),
    ensures
        forall|j: int| 0 <= j < i ==> lookup(remove_all(s, names, i), #[trigger] names[j]) is None,
        forall|k: Seq<char>|
            (forall|j: int| 0 <= j < i ==> names[j] != k) ==> #[trigger] lookup(
                remove_all(s, names, i),
                k,
            ) == lookup(s, k),
    decreases i,
{
    if i > 0 {
        lemma_remove_all_unbinds(s, names, i - 1);
        let prev = remove_all(s, names, i - 1);
        assert forall|j: int|
            0 <= j < i implies lookup(remove_all(s, names, i), #[trigger] names[j]) is None by {
            lemma_lookup_remove(prev, names[i - 1], names[j]);
        }
        assert forall|k: Seq<char>|
            (forall|j: int| 0 <= j < i ==> names[j] != k) implies #[trigger] lookup(
            remove_all(s, names, i),
            k,
        ) == lookup(s, k) by {
            lemma_lookup_remove(prev, names[i - 1], k);
        }
    }
}

} // verus!
