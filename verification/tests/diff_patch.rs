use sauron::apply::{apply_patches, ApplyError};
use sauron::diff::diff;
use sauron::node::{attr, element, on, text, Attribute, Callback, Node};
use sauron::patch::Patch;

fn div(attrs: Vec<Attribute>, children: Vec<Node>) -> Node {
    element("div".to_string(), attrs, children)
}

fn span(attrs: Vec<Attribute>, children: Vec<Node>) -> Node {
    element("span".to_string(), attrs, children)
}

fn class(v: &str) -> Attribute {
    attr("class".to_string(), v.to_string())
}

fn onclick(id: u64) -> Attribute {
    on("click".to_string(), Callback { id })
}

#[test]
fn no_op_diff_is_empty() {
    let t = div(
        vec![class("header"), onclick(7)],
        vec![
            text("hi".to_string()),
            span(vec![class("x")], vec![text("deep".to_string())]),
        ],
    );
    let u = t.deep_clone();
    let patches = diff(&t, &u);
    assert!(patches.is_empty());
}

#[test]
fn change_text_scenario() {
    let old_tree = div(vec![], vec![text("hi".to_string())]);
    let new_tree = div(vec![], vec![text("bye".to_string())]);
    let patches = diff(&old_tree, &new_tree);
    assert_eq!(patches, vec![Patch::ChangeText(1, "bye".to_string())]);
}

#[test]
fn minimal_attribute_patch() {
    let old_tree = div(vec![class("before"), attr("id".to_string(), "k".to_string())], vec![]);
    let new_tree = div(vec![class("after"), attr("id".to_string(), "k".to_string())], vec![]);
    let patches = diff(&old_tree, &new_tree);
    assert_eq!(
        patches,
        vec![Patch::AddAttributes("div".to_string(), 0, vec![class("after")])]
    );
}

#[test]
fn equal_attributes_yield_no_patch() {
    let old_tree = div(vec![class("same")], vec![]);
    let new_tree = div(vec![class("same")], vec![]);
    assert!(diff(&old_tree, &new_tree).is_empty());
}

#[test]
fn tag_change_replaces_and_prunes() {
    let old_tree = div(
        vec![class("a")],
        vec![text("one".to_string()), text("two".to_string())],
    );
    let new_tree = span(
        vec![class("b")],
        vec![div(vec![], vec![text("three".to_string())])],
    );
    let patches = diff(&old_tree, &new_tree);
    assert_eq!(patches.len(), 1);
    match &patches[0] {
        Patch::Replace(tag, idx, node) => {
            assert_eq!(tag, "div");
            assert_eq!(*idx, 0);
            assert_eq!(*node, new_tree);
        }
        other => panic!("expected a replace patch, got {:?}", other),
    }
}

#[test]
fn text_to_element_replaces() {
    let old_tree = text("plain".to_string());
    let new_tree = div(vec![], vec![]);
    let patches = diff(&old_tree, &new_tree);
    assert_eq!(patches, vec![Patch::Replace(String::new(), 0, div(vec![], vec![]))]);
}

#[test]
fn children_growth_appends() {
    let old_tree = div(vec![], vec![text("a".to_string())]);
    let new_tree = div(
        vec![],
        vec![text("a".to_string()), text("b".to_string()), text("c".to_string())],
    );
    let patches = diff(&old_tree, &new_tree);
    assert_eq!(
        patches,
        vec![Patch::AppendChildren(
            "div".to_string(),
            0,
            vec![text("b".to_string()), text("c".to_string())],
        )]
    );
}

#[test]
fn children_shrink_truncates() {
    let old_tree = div(
        vec![],
        vec![text("a".to_string()), text("b".to_string()), text("c".to_string())],
    );
    let new_tree = div(vec![], vec![text("a".to_string())]);
    let patches = diff(&old_tree, &new_tree);
    assert_eq!(patches, vec![Patch::TruncateChildren("div".to_string(), 0, 1)]);
}

#[test]
fn index_stability_of_second_child() {
    // root(0), child0(1), child0.child0(2), child1(3)
    let old_tree = div(
        vec![],
        vec![
            span(vec![], vec![text("a".to_string())]),
            text("c".to_string()),
        ],
    );
    let new_tree = div(
        vec![],
        vec![
            span(vec![], vec![text("changed".to_string())]),
            text("d".to_string()),
        ],
    );
    let patches = diff(&old_tree, &new_tree);
    assert_eq!(patches.len(), 2);
    assert_eq!(patches[0].node_idx(), 2);
    assert_eq!(patches[1].node_idx(), 3);
    assert_eq!(patches[1], Patch::ChangeText(3, "d".to_string()));
}

#[test]
fn node_idx_reads_the_target() {
    let p = Patch::TruncateChildren("ul".to_string(), 9, 2);
    assert_eq!(p.node_idx(), 9);
    let q = Patch::ChangeText(4, "x".to_string());
    assert_eq!(q.node_idx(), 4);
}

#[test]
fn round_trip_text_change() {
    let old_tree = div(vec![], vec![text("hi".to_string())]);
    let new_tree = div(vec![], vec![text("bye".to_string())]);
    let patches = diff(&old_tree, &new_tree);
    let mut live = old_tree.deep_clone();
    assert_eq!(apply_patches(&mut live, &patches), Ok(()));
    assert_eq!(live, new_tree);
}

#[test]
fn round_trip_attribute_change() {
    let old_tree = div(vec![class("before")], vec![]);
    let new_tree = div(vec![class("after"), attr("id".to_string(), "n".to_string())], vec![]);
    let patches = diff(&old_tree, &new_tree);
    let mut live = old_tree.deep_clone();
    assert_eq!(apply_patches(&mut live, &patches), Ok(()));
    assert_eq!(live, new_tree);
}

#[test]
fn round_trip_attribute_removal() {
    let old_tree = div(vec![class("keep"), attr("id".to_string(), "n".to_string())], vec![]);
    let new_tree = div(vec![class("keep")], vec![]);
    let patches = diff(&old_tree, &new_tree);
    assert_eq!(
        patches,
        vec![Patch::RemoveAttributes("div".to_string(), 0, vec!["id".to_string()])]
    );
    let mut live = old_tree.deep_clone();
    assert_eq!(apply_patches(&mut live, &patches), Ok(()));
    assert_eq!(live, new_tree);
}

#[test]
fn round_trip_listener_change() {
    let old_tree = div(vec![onclick(1)], vec![]);
    let new_tree = div(vec![onclick(2)], vec![]);
    let patches = diff(&old_tree, &new_tree);
    assert_eq!(
        patches,
        vec![Patch::AddEventListener("div".to_string(), 0, vec![onclick(2)])]
    );
    let mut live = old_tree.deep_clone();
    assert_eq!(apply_patches(&mut live, &patches), Ok(()));
    assert_eq!(live, new_tree);
}

#[test]
fn round_trip_listener_removal() {
    let old_tree = div(vec![onclick(1)], vec![]);
    let new_tree = div(vec![], vec![]);
    let patches = diff(&old_tree, &new_tree);
    assert_eq!(
        patches,
        vec![Patch::RemoveEventListener("div".to_string(), 0, vec!["click".to_string()])]
    );
    let mut live = old_tree.deep_clone();
    assert_eq!(apply_patches(&mut live, &patches), Ok(()));
    assert_eq!(live, new_tree);
}

#[test]
fn round_trip_children_growth() {
    let old_tree = div(vec![], vec![text("a".to_string())]);
    let new_tree = div(
        vec![],
        vec![text("a".to_string()), span(vec![class("x")], vec![])],
    );
    let patches = diff(&old_tree, &new_tree);
    let mut live = old_tree.deep_clone();
    assert_eq!(apply_patches(&mut live, &patches), Ok(()));
    assert_eq!(live, new_tree);
}

#[test]
fn round_trip_children_shrink() {
    let old_tree = div(
        vec![],
        vec![text("a".to_string()), text("b".to_string()), text("c".to_string())],
    );
    let new_tree = div(vec![], vec![text("a".to_string())]);
    let patches = diff(&old_tree, &new_tree);
    let mut live = old_tree.deep_clone();
    assert_eq!(apply_patches(&mut live, &patches), Ok(()));
    assert_eq!(live, new_tree);
}

#[test]
fn round_trip_nested_replace() {
    let old_tree = div(
        vec![class("root")],
        vec![
            span(vec![], vec![text("inner".to_string())]),
            text("tail".to_string()),
        ],
    );
    let new_tree = div(
        vec![class("root")],
        vec![
            div(vec![class("swapped")], vec![]),
            text("tail!".to_string()),
        ],
    );
    let patches = diff(&old_tree, &new_tree);
    let mut live = old_tree.deep_clone();
    assert_eq!(apply_patches(&mut live, &patches), Ok(()));
    assert_eq!(live, new_tree);
}

#[test]
fn apply_rejects_drifted_tree() {
    let old_tree = div(vec![class("a")], vec![]);
    let new_tree = div(vec![class("b")], vec![]);
    let patches = diff(&old_tree, &new_tree);
    let mut live = span(vec![class("a")], vec![]);
    let before = live.deep_clone();
    assert_eq!(apply_patches(&mut live, &patches), Err(ApplyError::StructuralMismatch));
    assert_eq!(live, before);
}

#[test]
fn apply_rejects_leftover_patches() {
    let patches = vec![Patch::ChangeText(5, "nowhere".to_string())];
    let mut live = text("alone".to_string());
    let before = live.deep_clone();
    assert_eq!(apply_patches(&mut live, &patches), Err(ApplyError::StructuralMismatch));
    assert_eq!(live, before);
}

#[test]
fn attribute_reorder_is_no_op() {
    // positional order of attributes is not observable: same bindings, no patch
    let old_tree = div(
        vec![class("a"), attr("id".to_string(), "n".to_string())],
        vec![],
    );
    let new_tree = div(
        vec![attr("id".to_string(), "n".to_string()), class("a")],
        vec![],
    );
    assert!(diff(&old_tree, &new_tree).is_empty());
}
