use vstd::prelude::*;

verus! {

/// An opaque event-callback binding. The live tree's event machinery owns the
/// actual closure; the tree model only tracks its identity, so two bindings
/// are equal exactly when their identities are.
#[derive(Clone, Copy, PartialEq, Eq, Structural, Debug)]
pub struct Callback {
    pub id: u64,
}

/// A listener attribute's payload: the binding plus the dispatch flags that
/// the live tree honours when the event fires.
#[derive(Clone, Copy, PartialEq, Eq, Structural, Debug)]
pub struct Listener {
    pub callback: Callback,
    pub prevent_default: bool,
    pub stop_propagation: bool,
}

/// The value of an attribute: a plain comparable value, or an opaque
/// event-listener binding.
#[derive(Debug, PartialEq)]
pub enum AttValue {
    Plain(String),
    Listener(Listener),
}

/// One attribute of an element node.
#[derive(Debug, PartialEq)]
pub struct Attribute {
    pub name: String,
    pub value: AttValue,
}

/// An immutable tree snapshot: an element with a tag, attributes and ordered
/// children, or a text leaf.
#[derive(Debug, PartialEq)]
pub enum Node {
    Element { tag: String, attributes: Vec<Attribute>, children: Vec<Node> },
    Text { content: String },
}

/// Mathematical model of an attribute value.
#[verifier::ext_equal]
pub enum ValView {
    Plain(Seq<char>),
    Listener(Listener),
}

/// Mathematical model of an attribute.
#[verifier::ext_equal]
pub struct AttrView {
    pub name: Seq<char>,
    pub value: ValView,
}

/// Mathematical model of a tree snapshot.
#[verifier::ext_equal]
pub enum NodeView {
    Element { tag: Seq<char>, attrs: Seq<AttrView>, children: Seq<NodeView> },
    Text { content: Seq<char> },
}

impl View for AttValue {
    type V = ValView;

    open spec fn view(&self) -> ValView {
        match self {
            AttValue::Plain(s) => ValView::Plain(s@),
            AttValue::Listener(l) => ValView::Listener(*l),
        }
    }
}

impl View for Attribute {
    type V = AttrView;

    open spec fn view(&self) -> AttrView {
        AttrView { name: self.name@, value: self.value@ }
    }
}

/// The views of a sequence of attributes, in order.
pub open spec fn attrs_view(s: Seq<Attribute>) -> Seq<AttrView> {
    Seq::new(s.len(), |i: int| s[i]@)
}

/// The views of a sequence of attribute names, in order.
pub open spec fn names_view(s: Seq<String>) -> Seq<Seq<char>> {
    Seq::new(s.len(), |i: int| s[i]@)
}

/// Views of the first `i` nodes of `s`, in order.
pub open spec fn children_view(s: Seq<Node>, i: int) -> Seq<NodeView>
    decreases s, i,
{
    if i <= 0 || i > s.len() {
        Seq::empty()
    } else {
        children_view(s, i - 1).push(node_view(s[i - 1]))
    }
}

pub open spec fn node_view(n: Node) -> NodeView
    decreases n,
    via node_view_decreases
{
    match n {
        Node::Text { content } => NodeView::Text { content: content@ },
        Node::Element { tag, attributes, children } => NodeView::Element {
            tag: tag@,
            attrs: attrs_view(attributes@),
            children: children_view(children@, children@.len() as int),
        },
    }
}

#[via_fn]
proof fn node_view_decreases(n: Node) {
    match n {
        Node::Element { tag, attributes, children } => {
            assert(decreases_to!(n => children));
            assert(decreases_to!(children => children@));
        }
        Node::Text { .. } => {}
    }
}

pub broadcast proof fn lemma_children_view(s: Seq<Node>, i: int)
    requires
        0 <= i <= s.len(),
    ensures
        (#[trigger] children_view(s, i)).len() == i,
        forall|j: int| 0 <= j < i ==> children_view(s, i)[j] == node_view(s[j]),
    decreases i,
{
    if i > 0 {
        lemma_children_view(s, i - 1);
    }
}

impl View for Node {
    type V = NodeView;

    open spec fn view(&self) -> NodeView {
        node_view(*self)
    }
}

/// Number of nodes in the subtree rooted at `n` (the node itself included).
pub open spec fn node_size(n: NodeView) -> nat
    decreases n,
{
    match n {
        NodeView::Text { .. } => 1,
        NodeView::Element { children, .. } => 1 + subtree_sizes(children, children.len() as int),
    }
}

/// Sum of the subtree sizes of `s[0], ..., s[i - 1]`.
pub open spec fn subtree_sizes(s: Seq<NodeView>, i: int) -> nat
    decreases s, i,
{
    if i <= 0 || i > s.len() {
        0
    } else {
        subtree_sizes(s, i - 1) + node_size(s[i - 1])
    }
}

/// Summing one more subtree extends the partial sum.
pub broadcast proof fn lemma_subtree_sizes_step(s: Seq<NodeView>, i: int)
    requires
        0 <= i < s.len(),
    ensures
        #[trigger] subtree_sizes(s, i + 1) == subtree_sizes(s, i) + node_size(s[i]),
{
}

/// Partial subtree-size sums grow with the prefix length.
pub proof fn lemma_subtree_sizes_mono(s: Seq<NodeView>, i: int, j: int)
    requires
        0 <= i <= j <= s.len(),
    ensures
        subtree_sizes(s, i) <= subtree_sizes(s, j),
    decreases j - i,
{
    if i < j {
        lemma_subtree_sizes_mono(s, i, j - 1);
    }
}

/// The tag recorded in patches for a node: an element's tag, or the empty
/// string for a text leaf.
pub open spec fn tag_of(n: NodeView) -> Seq<char> {
    match n {
        NodeView::Element { tag, .. } => tag,
        NodeView::Text { .. } => Seq::empty(),
    }
}

/// The value bound to `name` in `s`, searching from position `i`: the first
/// occurrence wins.
pub open spec fn lookup_at(s: Seq<AttrView>, i: int, name: Seq<char>) -> Option<ValView>
    decreases s.len() - i,
{
    if i < 0 || i >= s.len() {
        None
    } else if s[i].name == name {
        Some(s[i].value)
    } else {
        lookup_at(s, i + 1, name)
    }
}

/// The value bound to `name` in the attribute collection `s`, if any.
pub open spec fn lookup(s: Seq<AttrView>, name: Seq<char>) -> Option<ValView> {
    lookup_at(s, 0, name)
}

/// Attribute names are unique within one collection: the data model merges
/// same-named attributes before a node is ever diffed.
pub open spec fn attrs_wf(s: Seq<AttrView>) -> bool {
    forall|i: int, j: int| 0 <= i < j < s.len() ==> s[i].name != s[j].name
}

/// Within `n` and all of its descendants, attribute names are unique per node.
pub open spec fn node_wf(n: NodeView) -> bool
    decreases n,
{
    match n {
        NodeView::Text { .. } => true,
        NodeView::Element { attrs, children, .. } => attrs_wf(attrs) && children_wf(
            children,
            children.len() as int,
        ),
    }
}

/// Well-formedness of the first `i` nodes of `s`.
pub open spec fn children_wf(s: Seq<NodeView>, i: int) -> bool
    decreases s, i,
{
    if i <= 0 || i > s.len() {
        true
    } else {
        children_wf(s, i - 1) && node_wf(s[i - 1])
    }
}

pub broadcast proof fn lemma_children_wf(s: Seq<NodeView>, i: int)
    requires
        0 <= i <= s.len(),
    ensures
        #[trigger] children_wf(s, i) <==> (forall|j: int| 0 <= j < i ==> node_wf(s[j])),
    decreases i,
{
    if i > 0 {
        lemma_children_wf(s, i - 1);
    }
}

/// Two attribute collections bind the same values to the same names.
pub open spec fn attrs_equiv(a: Seq<AttrView>, b: Seq<AttrView>) -> bool {
    forall|k: Seq<char>| #[trigger] lookup(a, k) == lookup(b, k)
}

/// Observable equality of trees: same tags, same attribute bindings, same
/// text and same child counts, recursively. Attribute order within a node is
/// not observable; everything else is.
pub open spec fn obs_eq(a: NodeView, b: NodeView) -> bool
    decreases a,
{
    match (a, b) {
        (NodeView::Text { content: c1 }, NodeView::Text { content: c2 }) => c1 == c2,
        (
            NodeView::Element { tag: t1, attrs: a1, children: cs1 },
            NodeView::Element { tag: t2, attrs: a2, children: cs2 },
        ) => t1 == t2 && attrs_equiv(a1, a2) && cs1.len() == cs2.len() && children_obs_eq(
            cs1,
            cs2,
            cs1.len() as int,
        ),
        _ => false,
    }
}

/// Pairwise observable equality of the first `i` children.
pub open spec fn children_obs_eq(a: Seq<NodeView>, b: Seq<NodeView>, i: int) -> bool
    decreases a, i,
{
    if i <= 0 || i > a.len() || i > b.len() {
        true
    } else {
        children_obs_eq(a, b, i - 1) && obs_eq(a[i - 1], b[i - 1])
    }
}

pub broadcast proof fn lemma_children_obs_eq(a: Seq<NodeView>, b: Seq<NodeView>, i: int)
    requires
        0 <= i <= a.len(),
        i <= b.len(),
    ensures
        #[trigger] children_obs_eq(a, b, i) <==> (forall|j: int| 0 <= j < i ==> obs_eq(a[j], b[j])),
    decreases i,
{
    if i > 0 {
        lemma_children_obs_eq(a, b, i - 1);
    }
}

/// Observable equality is reflexive.
pub proof fn lemma_obs_eq_refl(a: NodeView)
    ensures
        obs_eq(a, a),
    decreases a,
{
    match a {
        NodeView::Text { .. } => {}
        NodeView::Element { tag, attrs, children } => {
            assert forall|j: int| 0 <= j < children.len() implies obs_eq(
                children[j],
                children[j],
            ) by {
                lemma_obs_eq_refl(children[j]);
            }
            lemma_children_obs_eq(children, children, children.len() as int);
        }
    }
}

impl Attribute {
    pub fn deep_clone(&self) -> (r: Attribute)
        ensures
            r@ == self@,
    {
        let value = match &self.value {
            AttValue::Plain(s) => AttValue::Plain(s.clone()),
            AttValue::Listener(l) => AttValue::Listener(*l),
        };
        Attribute { name: self.name.clone(), value }
    }
}

impl Node {
    /// A structurally identical copy of the subtree.
    pub fn deep_clone(&self) -> (r: Node)
        ensures
            r@ == self@,
        decreases self@,
    {
        match self {
            Node::Text { content } => Node::Text { content: content.clone() },
            Node::Element { tag, attributes, children } => {
                let mut attrs: Vec<Attribute> = Vec::new();
                let mut i: usize = 0;
                while i < attributes.len()
                    invariant
                        i <= attributes.len(),
                        attrs@.len() == i as int,
                        forall|j: int| 0 <= j < i ==> attrs@[j]@ == #[trigger] attributes@[j]@,
                    decreases attributes@.len() - i,
                {
                    let a = attributes[i].deep_clone();
                    attrs.push(a);
                    i = i + 1;
                }
                let mut kids: Vec<Node> = Vec::new();
                let mut j: usize = 0;
                while j < children.len()
                    invariant
                        j <= children.len(),
                        kids@.len() == j as int,
                        forall|k: int| 0 <= k < j ==> kids@[k]@ == #[trigger] children@[k]@,
                        self@ matches NodeView::Element { children: cs, .. } && cs
                            == children_view(children@, children@.len() as int),
                    decreases children@.len() - j,
                {
                    proof {
                        lemma_children_view(children@, children@.len() as int);
                        assert(decreases_to!(self@ => self@->Element_children));
                        assert(decreases_to!(
                            self@->Element_children => self@->Element_children[j as int]
                        ));
                        assert(self@->Element_children[j as int] == children@[j as int]@);
                    }
                    let c = children[j].deep_clone();
                    kids.push(c);
                    j = j + 1;
                }
                let r = Node::Element { tag: tag.clone(), attributes: attrs, children: kids };
                proof {
                    lemma_children_view(children@, children@.len() as int);
                    lemma_children_view(kids@, kids@.len() as int);
                    assert forall|k: int| 0 <= k < kids@.len() implies children_view(
                        kids@,
                        kids@.len() as int,
                    )[k] == children_view(children@, children@.len() as int)[k] by {
                        assert(kids@[k]@ == children@[k]@);
                    }
                    assert(children_view(kids@, kids@.len() as int) =~= children_view(
                        children@,
                        children@.len() as int,
                    ));
                    assert(Seq::new(attrs@.len(), |k: int| attrs@[k]@) =~= Seq::new(
                        attributes@.len(),
                        |k: int| attributes@[k]@,
                    ));
                    assert(r@ =~= self@);
                }
                r
            }
        }
    }
}

/// Build an element node.
pub fn element(tag: String, attributes: Vec<Attribute>, children: Vec<Node>) -> (r: Node)
    ensures
        r@ == (NodeView::Element {
            tag: tag@,
            attrs: Seq::new(attributes@.len(), |i: int| attributes@[i]@),
            children: children_view(children@, children@.len() as int),
        }),
{
    Node::Element { tag, attributes, children }
}

/// Build a text leaf.
pub fn text(content: String) -> (r: Node)
    ensures
        r@ == (NodeView::Text { content: content@ }),
{
    Node::Text { content }
}

/// Build a plain-valued attribute.
pub fn attr(name: String, value: String) -> (r: Attribute)
    ensures
        r@ == (AttrView { name: name@, value: ValView::Plain(value@) }),
{
    Attribute { name, value: AttValue::Plain(value) }
}

/// Attach a listener binding under an event name, with default dispatch
/// flags.
pub fn on(event: String, callback: Callback) -> (r: Attribute)
    ensures
        r@ == (AttrView {
            name: event@,
            value: ValView::Listener(
                Listener { callback, prevent_default: false, stop_propagation: false },
            ),
        }),
{
    Attribute {
        name: event,
        value: AttValue::Listener(
            Listener { callback, prevent_default: false, stop_propagation: false },
        ),
    }
}

} // verus!
