use vstd::prelude::*;

use crate::node::{children_view, Attribute, AttrView, Node, NodeView};

verus! {

/// A Patch encodes one operation that modifies the live tree.
///
/// Diffing an old snapshot against a new one yields a `Vec<Patch>` that, when
/// applied in order to a live tree shaped like the old snapshot, makes the
/// live tree look like the new snapshot.
///
/// Each patch carries the tag of the node it targets (a sanity check against
/// a drifted live tree) and the node's index. Nodes are indexed depth first,
/// pre-order: the root is 0, then its first child's whole subtree, then the
/// next sibling's, and so on.
#[derive(Debug, PartialEq)]
pub enum Patch {
    /// Append these child nodes to the children of the indexed node.
    AppendChildren(String, usize, Vec<Node>),
    /// Remove all children of the indexed node besides the first `len`.
    TruncateChildren(String, usize, usize),
    /// Replace the indexed node's whole subtree with another node, as when a
    /// node's tag changes.
    Replace(String, usize, Node),
    /// Bind plain attributes that the new node has and the old one lacked,
    /// or whose values changed; the new value wins whole.
    AddAttributes(String, usize, Vec<Attribute>),
    /// Unbind the plain attributes with these names.
    RemoveAttributes(String, usize, Vec<String>),
    /// Bind listener attributes that the new node has and the old one
    /// lacked, or whose bindings changed.
    AddEventListener(String, usize, Vec<Attribute>),
    /// Unbind the listener attributes with these names.
    RemoveEventListener(String, usize, Vec<String>),
    /// Change the content of a text leaf.
    ChangeText(usize, String),
}

/// Mathematical model of a patch. Indices and lengths are unbounded
/// integers; node and attribute payloads are their views.
#[verifier::ext_equal]
pub enum PatchView {
    AppendChildren(Seq<char>, int, Seq<NodeView>),
    TruncateChildren(Seq<char>, int, int),
    Replace(Seq<char>, int, NodeView),
    AddAttributes(Seq<char>, int, Seq<AttrView>),
    RemoveAttributes(Seq<char>, int, Seq<Seq<char>>),
    AddEventListener(Seq<char>, int, Seq<AttrView>),
    RemoveEventListener(Seq<char>, int, Seq<Seq<char>>),
    ChangeText(int, Seq<char>),
}

impl View for Patch {
    type V = PatchView;

    open spec fn view(&self) -> PatchView {
        match self {
            Patch::AppendChildren(tag, idx, kids) => PatchView::AppendChildren(
                tag@,
                *idx as int,
                children_view(kids@, kids@.len() as int),
            ),
            Patch::TruncateChildren(tag, idx, len) => PatchView::TruncateChildren(
                tag@,
                *idx as int,
                *len as int,
            ),
            Patch::Replace(tag, idx, n) => PatchView::Replace(tag@, *idx as int, n@),
            Patch::AddAttributes(tag, idx, attrs) => PatchView::AddAttributes(
                tag@,
                *idx as int,
                Seq::new(attrs@.len(), |i: int| attrs@[i]@),
            ),
            Patch::RemoveAttributes(tag, idx, names) => PatchView::RemoveAttributes(
                tag@,
                *idx as int,
                Seq::new(names@.len(), |i: int| names@[i]@),
            ),
            Patch::AddEventListener(tag, idx, attrs) => PatchView::AddEventListener(
                tag@,
                *idx as int,
                Seq::new(attrs@.len(), |i: int| attrs@[i]@),
            ),
            Patch::RemoveEventListener(tag, idx, names) => PatchView::RemoveEventListener(
                tag@,
                *idx as int,
                Seq::new(names@.len(), |i: int| names@[i]@),
            ),
            Patch::ChangeText(idx, content) => PatchView::ChangeText(*idx as int, content@),
        }
    }
}

impl PatchView {
    /// The depth-first index of the node this patch targets.
    pub open spec fn target_idx(self) -> int {
        match self {
            PatchView::AppendChildren(_, idx, _) => idx,
            PatchView::TruncateChildren(_, idx, _) => idx,
            PatchView::Replace(_, idx, _) => idx,
            PatchView::AddAttributes(_, idx, _) => idx,
            PatchView::RemoveAttributes(_, idx, _) => idx,
            PatchView::AddEventListener(_, idx, _) => idx,
            PatchView::RemoveEventListener(_, idx, _) => idx,
            PatchView::ChangeText(idx, _) => idx,
        }
    }
}

impl Patch {
    /// Every patch applies to one node of the live tree. This is the index
    /// of that node under depth-first, pre-order indexing with the root at
    /// index 0.
    pub fn node_idx(&self) -> (r: usize)
        ensures
            r as int == self@.target_idx(),
    {
        match self {
            Patch::AppendChildren(_tag, node_idx, _) => *node_idx,
            Patch::TruncateChildren(_tag, node_idx, _) => *node_idx,
            Patch::Replace(_tag, node_idx, _) => *node_idx,
            Patch::AddAttributes(_tag, node_idx, _) => *node_idx,
            Patch::RemoveAttributes(_tag, node_idx, _) => *node_idx,
            Patch::AddEventListener(_tag, node_idx, _) => *node_idx,
            Patch::RemoveEventListener(_tag, node_idx, _) => *node_idx,
            Patch::ChangeText(node_idx, _) => *node_idx,
        }
    }
}

/// The views of a sequence of patches, in order.
pub open spec fn patches_view(s: Seq<Patch>) -> Seq<PatchView> {
    Seq::new(s.len(), |i: int| s[i]@)
}

} // verus!
