//! Templates: named blueprint trees, built once from a template's
//! definition and materialised into the retained tree any number of times.
use crate::identity::NodeId;
use crate::style::{parse_style_attributes, styled_all, Style, StyleError, TemplateAttribute};
use crate::text::str_eq;
use crate::tree::{RetainedTree, TreeModel};
use vstd::prelude::*;

verus! {

/// A node of a template as the diff engine defines it.
pub enum TemplateNode {
    /// An element with its tag, attributes and children.
    Element { tag: String, attrs: Vec<TemplateAttribute>, children: Vec<TemplateNode> },
    /// Fixed text.
    Text { text: String },
    /// A slot that later edits replace by nodes.
    Dynamic { id: usize },
    /// A slot that later edits fill with text.
    DynamicText { id: usize },
}

/// A template as the diff engine defines it: a name and the roots.
pub struct Template {
    pub name: String,
    pub roots: Vec<TemplateNode>,
}

/// Why a template was rejected.
#[derive(Clone, Copy, Debug, PartialEq, Eq, Structural)]
pub enum TemplateError {
    /// An element has a tag other than `node`.
    UnsupportedTag,
    /// A static attribute is not supported.
    Style(StyleError),
}

/// A blueprint as contracts speak of it: the shape of a subtree that is not
/// yet in any tree.
pub enum Blueprint {
    Container { style: Style, children: Seq<Blueprint> },
    TextLeaf { text: Seq<char> },
    Placeholder,
}

/// A node of a built template.
pub enum BevyTemplateNode {
    /// A container with its resolved style.
    Node { style: Style, children: Vec<BevyTemplateNode> },
    /// A text leaf with its text.
    TextNode(String),
    /// An empty container without style, for later edits to fill.
    Placeholder,
}

/// A built template: the blueprints of its roots.
pub struct BevyTemplate {
    pub roots: Vec<BevyTemplateNode>,
}

/// The blueprint that a built node stands for.
pub open spec fn blueprint(node: BevyTemplateNode) -> Blueprint
    decreases node,
{
    match node {
        BevyTemplateNode::Node { style, children } => Blueprint::Container {
            style,
            children: blueprints(children@),
        },
        BevyTemplateNode::TextNode(text) => Blueprint::TextLeaf { text: text@ },
        BevyTemplateNode::Placeholder => Blueprint::Placeholder,
    }
}

/// The blueprints that built nodes stand for, in order.
pub open spec fn blueprints(nodes: Seq<BevyTemplateNode>) -> Seq<Blueprint>
    decreases nodes,
{
    Seq::new(
        nodes.len(),
        |i: int|
            if 0 <= i < nodes.len() {
                blueprint(nodes[i])
            } else {
                Blueprint::Placeholder
            },
    )
}

impl View for BevyTemplateNode {
    type V = Blueprint;

    open spec fn view(&self) -> Blueprint {
        blueprint(*self)
    }
}

impl View for BevyTemplate {
    type V = Seq<Blueprint>;

    open spec fn view(&self) -> Seq<Blueprint> {
        blueprints(self.roots@)
    }
}

/// The blueprint of a template node: an element must have the tag `node`
/// and gets the style of its static attributes; text stays text; a dynamic
/// slot is a placeholder and a dynamic text slot an empty text. The first
/// rejection, in document order, is the result.
pub open spec fn compiled(node: TemplateNode) -> Result<Blueprint, TemplateError>
    decreases node,
{
    match node {
        TemplateNode::Element { tag, attrs, children } => if tag@ != "node"@ {
            Err(TemplateError::UnsupportedTag)
        } else {
            match styled_all(attrs@) {
                Err(e) => Err(TemplateError::Style(e)),
                Ok(style) => match compiled_all(children@) {
                    Err(e) => Err(e),
                    Ok(kids) => Ok(Blueprint::Container { style, children: kids }),
                },
            }
        },
        TemplateNode::Text { text } => Ok(Blueprint::TextLeaf { text: text@ }),
        TemplateNode::Dynamic { .. } => Ok(Blueprint::Placeholder),
        TemplateNode::DynamicText { .. } => Ok(Blueprint::TextLeaf { text: Seq::empty() }),
    }
}

/// The blueprints of template nodes, in order, or the first rejection.
pub open spec fn compiled_all(nodes: Seq<TemplateNode>) -> Result<Seq<Blueprint>, TemplateError>
    decreases nodes,
{
    if nodes.len() == 0 {
        Ok(Seq::empty())
    } else {
        match compiled_all(nodes.drop_last()) {
            Err(e) => Err(e),
            Ok(front) => match compiled(nodes.last()) {
                Err(e) => Err(e),
                Ok(b) => Ok(front.push(b)),
            },
        }
    }
}

/// The tree after `b` was materialised in `t`, and the root of the new
/// subtree. Children come before their parent, each list in order.
pub open spec fn instantiated(t: TreeModel, b: Blueprint) -> (TreeModel, NodeId)
    decreases b,
{
    match b {
        Blueprint::Container { style, children } => {
            let (t1, kids) = instantiated_all(t, children);
            (t1.adopting(style, kids), t1.fresh())
        },
        Blueprint::TextLeaf { text } => (t.spawned(Style::initial(), Some(text)), t.fresh()),
        Blueprint::Placeholder => (t.spawned(Style::initial(), None), t.fresh()),
    }
}

/// The tree after each of `bs` was materialised in `t`, in order, and the
/// roots of the new subtrees.
pub open spec fn instantiated_all(t: TreeModel, bs: Seq<Blueprint>) -> (TreeModel, Seq<NodeId>)
    decreases bs,
{
    if bs.len() == 0 {
        (t, Seq::empty())
    } else {
        let (t1, front) = instantiated_all(t, bs.drop_last());
        let (t2, id) = instantiated(t1, bs.last());
        (t2, front.push(id))
    }
}

/// Whether the subtree of `id` has the shape of `b`: the same kinds of
/// nodes, styles, texts and order of children, with every identity of it
/// from `low` up to, but not including, `high`.
pub open spec fn realizes(t: TreeModel, id: NodeId, b: Blueprint, low: nat, high: nat) -> bool
    decreases b,
{
    &&& t.contains(id)
    &&& low <= id.0 < high
    &&& match b {
        Blueprint::Container { style, children } => {
            &&& t.nodes[id].style == style
            &&& t.nodes[id].text is None
            &&& t.children(id).len() == children.len()
            &&& forall|i: int|
                0 <= i < children.len() ==> realizes(
                    t,
                    #[trigger] t.children(id)[i],
                    children[i],
                    low,
                    high,
                )
        },
        Blueprint::TextLeaf { text } => {
            &&& t.nodes[id].style == Style::initial()
            &&& t.nodes[id].text == Some(text)
            &&& t.children(id).len() == 0
        },
        Blueprint::Placeholder => {
            &&& t.nodes[id].style == Style::initial()
            &&& t.nodes[id].text is None
            &&& t.children(id).len() == 0
        },
    }
}

/// Whether the subtrees of `a` and `b` agree down to `depth` levels: node
/// by node the same style and text and as many children, in the same order,
/// and never the same node.
pub open spec fn alike(t: TreeModel, a: NodeId, b: NodeId, depth: nat) -> bool
    decreases depth,
{
    &&& t.contains(a)
    &&& t.contains(b)
    &&& a != b
    &&& t.nodes[a].style == t.nodes[b].style
    &&& t.nodes[a].text == t.nodes[b].text
    &&& t.children(a).len() == t.children(b).len()
    &&& depth > 0 ==> forall|i: int|
        0 <= i < t.children(a).len() ==> alike(
            t,
            #[trigger] t.children(a)[i],
            t.children(b)[i],
            (depth - 1) as nat,
        )
}

/// Whether the subtrees of `a` and `b` have the same shape and share no
/// node.
pub open spec fn isomorphic(t: TreeModel, a: NodeId, b: NodeId) -> bool {
    forall|depth: nat| alike(t, a, b, depth)
}

/// Whether `t2` holds every node of `t` as it was, and beside them only
/// nodes whose identities `t` had not given out.
pub open spec fn extends(t: TreeModel, t2: TreeModel) -> bool {
    &&& t.next <= t2.next
    &&& forall|n: NodeId| #[trigger] t.contains(n) ==> t2.contains(n) && t2.nodes[n] == t.nodes[n]
    &&& forall|n: NodeId| #[trigger] t2.contains(n) ==> t.contains(n) || t.next <= n.0
}

proof fn lemma_next_grows(t: TreeModel, b: Blueprint)
    ensures
        t.next < instantiated(t, b).0.next,
    decreases b,
{
    match b {
        Blueprint::Container { style, children } => {
            lemma_next_grows_all(t, children);
        },
        _ => {},
    }
}

proof fn lemma_next_grows_all(t: TreeModel, bs: Seq<Blueprint>)
    ensures
        t.next <= instantiated_all(t, bs).0.next,
        instantiated_all(t, bs).1.len() == bs.len(),
    decreases bs,
{
    if bs.len() > 0 {
        lemma_next_grows_all(t, bs.drop_last());
        lemma_next_grows(instantiated_all(t, bs.drop_last()).0, bs.last());
    }
}

/// A subtree keeps its shape while its nodes keep style, text and children.
proof fn lemma_realizes_stable(
    t: TreeModel,
    t2: TreeModel,
    id: NodeId,
    b: Blueprint,
    low: nat,
    high: nat,
)
    requires
        realizes(t, id, b, low, high),
        forall|n: NodeId| #[trigger]
            t.contains(n) ==> t2.contains(n) && t2.nodes[n].style == t.nodes[n].style
                && t2.nodes[n].text == t.nodes[n].text && t2.nodes[n].children
                == t.nodes[n].children,
    ensures
        realizes(t2, id, b, low, high),
    decreases b,
{
    assert(t.contains(id));
    match b {
        Blueprint::Container { style, children } => {
            assert forall|i: int| 0 <= i < children.len() implies realizes(
                t2,
                #[trigger] t2.children(id)[i],
                children[i],
                low,
                high,
            ) by {
                assert(realizes(t, t.children(id)[i], children[i], low, high));
                lemma_realizes_stable(t, t2, t.children(id)[i], children[i], low, high);
            }
        },
        _ => {},
    }
}

/// A subtree that lies within a range of identities lies within every
/// wider one.
proof fn lemma_realizes_wider(
    t: TreeModel,
    id: NodeId,
    b: Blueprint,
    low: nat,
    high: nat,
    low2: nat,
    high2: nat,
)
    requires
        realizes(t, id, b, low, high),
        low2 <= low,
        high <= high2,
    ensures
        realizes(t, id, b, low2, high2),
    decreases b,
{
    match b {
        Blueprint::Container { style, children } => {
            assert forall|i: int| 0 <= i < children.len() implies realizes(
                t,
                #[trigger] t.children(id)[i],
                children[i],
                low2,
                high2,
            ) by {
                lemma_realizes_wider(t, t.children(id)[i], children[i], low, high, low2, high2);
            }
        },
        _ => {},
    }
}

/// What materialising a blueprint does to a well-formed tree: the tree
/// stays well-formed, its old nodes are untouched, and the new subtree has
/// the blueprint's shape, a root without parent, and fresh identities only.
pub proof fn lemma_instantiated(t: TreeModel, b: Blueprint)
    requires
        t.wf(),
        instantiated(t, b).0.next <= u64::MAX,
    ensures
        instantiated(t, b).0.wf(),
        extends(t, instantiated(t, b).0),
        instantiated(t, b).0.contains(instantiated(t, b).1),
        instantiated(t, b).0.parent(instantiated(t, b).1) is None,
        realizes(
            instantiated(t, b).0,
            instantiated(t, b).1,
            b,
            t.next,
            instantiated(t, b).0.next,
        ),
    decreases b,
{
    let (t2, id) = instantiated(t, b);
    assert(!t.contains(t.fresh())) by {
        if t.contains(t.fresh()) {
            assert(t.fresh().0 < t.next);
        }
    }
    match b {
        Blueprint::Container { style, children } => {
            let (t1, kids) = instantiated_all(t, children);
            lemma_instantiated_all(t, children);
            t1.lemma_adopting_wf(style, kids);
            assert(!t1.contains(id)) by {
                if t1.contains(id) {
                    assert(id.0 < t1.next);
                }
            }
            assert forall|n: NodeId| #[trigger] t.contains(n) implies t2.contains(n)
                && t2.nodes[n] == t.nodes[n] by {
                assert(t1.contains(n));
                if kids.contains(n) {
                    let j = choose|j: int| 0 <= j < kids.len() && kids[j] == n;
                    assert(t.next <= kids[j].0);
                }
            }
            assert forall|n: NodeId| #[trigger] t2.contains(n) implies t.contains(n) || t.next
                <= n.0 by {
                if n != id {
                    assert(t1.contains(n));
                }
            }
            assert forall|i: int| 0 <= i < children.len() implies realizes(
                t2,
                #[trigger] t2.children(id)[i],
                children[i],
                t.next,
                t2.next,
            ) by {
                assert(realizes(t1, kids[i], children[i], t.next, t1.next));
                lemma_realizes_stable(t1, t2, kids[i], children[i], t.next, t1.next);
                lemma_realizes_wider(t2, kids[i], children[i], t.next, t1.next, t.next, t2.next);
            }
        },
        _ => {
            assert(t2.nodes.dom() =~= t.nodes.dom().insert(id));
            assert forall|n: NodeId| #[trigger] t2.contains(n) implies n.0 < t2.next
                && t2.children(n).no_duplicates() && (t2.parent(n) matches Some(p)
                ==> t2.contains(p) && t2.children(p).contains(n)) by {
                if n != id {
                    assert(t.contains(n));
                }
            }
            assert forall|n: NodeId, i: int|
                t2.contains(n) && 0 <= i < t2.children(n).len() implies t2.contains(
                #[trigger] t2.children(n)[i],
            ) && t2.parent(t2.children(n)[i]) == Some(n) by {
                assert(t.contains(n));
                assert(t.contains(t.children(n)[i]));
            }
        },
    }
}

/// What materialising blueprints one after another does to a well-formed
/// tree.
pub proof fn lemma_instantiated_all(t: TreeModel, bs: Seq<Blueprint>)
    requires
        t.wf(),
        instantiated_all(t, bs).0.next <= u64::MAX,
    ensures
        instantiated_all(t, bs).0.wf(),
        extends(t, instantiated_all(t, bs).0),
        instantiated_all(t, bs).1.len() == bs.len(),
        instantiated_all(t, bs).0.adoptable(instantiated_all(t, bs).1),
        forall|i: int|
            0 <= i < bs.len() ==> realizes(
                instantiated_all(t, bs).0,
                #[trigger] instantiated_all(t, bs).1[i],
                bs[i],
                t.next,
                instantiated_all(t, bs).0.next,
            ),
    decreases bs,
{
    if bs.len() > 0 {
        let (t1, front) = instantiated_all(t, bs.drop_last());
        let (t2, id) = instantiated(t1, bs.last());
        let kids = front.push(id);
        lemma_next_grows(t1, bs.last());
        lemma_instantiated_all(t, bs.drop_last());
        lemma_instantiated(t1, bs.last());
        assert forall|n: NodeId| #[trigger] t.contains(n) implies t2.contains(n) && t2.nodes[n]
            == t.nodes[n] by {
            assert(t1.contains(n));
        }
        assert forall|n: NodeId| #[trigger] t2.contains(n) implies t.contains(n) || t.next
            <= n.0 by {
            if t1.contains(n) {
            }
        }
        assert forall|i: int| 0 <= i < kids.len() implies t2.contains(#[trigger] kids[i])
            && t2.parent(kids[i]) is None by {
            if i < front.len() {
                assert(t1.contains(front[i]));
            }
        }
        assert(kids.no_duplicates()) by {
            assert forall|i: int, j: int|
                0 <= i < kids.len() && 0 <= j < kids.len() && i != j implies kids[i]
                != kids[j] by {
                if i < front.len() && j < front.len() {
                    assert(front[i] != front[j]);
                } else if i < front.len() {
                    assert(t1.contains(front[i]));
                    assert(front[i].0 < t1.next);
                } else {
                    assert(t1.contains(front[j]));
                    assert(front[j].0 < t1.next);
                }
            }
        }
        assert forall|i: int| 0 <= i < bs.len() implies realizes(
            t2,
            #[trigger] kids[i],
            bs[i],
            t.next,
            t2.next,
        ) by {
            if i < front.len() {
                assert(realizes(t1, front[i], bs.drop_last()[i], t.next, t1.next));
                lemma_realizes_stable(t1, t2, front[i], bs[i], t.next, t1.next);
                lemma_realizes_wider(t2, front[i], bs[i], t.next, t1.next, t.next, t2.next);
            } else {
                lemma_realizes_wider(t2, id, bs[i], t1.next, t2.next, t.next, t2.next);
            }
        }
    }
}

/// Two subtrees of one shape that lie in ranges of identities that do not
/// meet agree node by node and share no node.
proof fn lemma_same_shape_alike(
    t: TreeModel,
    a: NodeId,
    b: NodeId,
    shape: Blueprint,
    bounds: (nat, nat, nat),
    depth: nat,
)
    requires
        realizes(t, a, shape, bounds.0, bounds.1),
        realizes(t, b, shape, bounds.1, bounds.2),
    ensures
        alike(t, a, b, depth),
    decreases depth,
{
    if depth > 0 {
        match shape {
            Blueprint::Container { style, children } => {
                assert forall|i: int| 0 <= i < t.children(a).len() implies alike(
                    t,
                    #[trigger] t.children(a)[i],
                    t.children(b)[i],
                    (depth - 1) as nat,
                ) by {
                    assert(realizes(t, t.children(a)[i], children[i], bounds.0, bounds.1));
                    assert(realizes(t, t.children(b)[i], children[i], bounds.1, bounds.2));
                    lemma_same_shape_alike(
                        t,
                        t.children(a)[i],
                        t.children(b)[i],
                        children[i],
                        bounds,
                        (depth - 1) as nat,
                    );
                }
            },
            _ => {},
        }
    }
}

/// Materialising one blueprint twice gives two subtrees of the same shape:
/// node by node the same kind, style and text, the children in the same
/// order, and no node in both.
pub proof fn lemma_instantiate_twice(t: TreeModel, b: Blueprint)
    requires
        t.wf(),
        instantiated(instantiated(t, b).0, b).0.next <= u64::MAX,
    ensures
        instantiated(t, b).1 != instantiated(instantiated(t, b).0, b).1,
        isomorphic(
            instantiated(instantiated(t, b).0, b).0,
            instantiated(t, b).1,
            instantiated(instantiated(t, b).0, b).1,
        ),
{
    let (t1, first) = instantiated(t, b);
    let (t2, second) = instantiated(t1, b);
    lemma_next_grows(t1, b);
    lemma_instantiated(t, b);
    lemma_instantiated(t1, b);
    lemma_realizes_stable(t1, t2, first, b, t.next, t1.next);
    assert forall|depth: nat| alike(t2, first, second, depth) by {
        lemma_same_shape_alike(t2, first, second, b, (t.next, t1.next, t2.next), depth);
    }
    assert(alike(t2, first, second, 0));
}

impl BevyTemplateNode {
    /// Builds the blueprint of a template node.
    pub fn from_dioxus(node: &TemplateNode) -> (r: Result<BevyTemplateNode, TemplateError>)
        ensures
            match compiled(*node) {
                Ok(b) => r matches Ok(built) && built@ == b,
                Err(e) => r matches Err(given) && given == e,
            },
        decreases node,
    {
        match node {
            TemplateNode::Element { tag, attrs, children } => {
                if !str_eq(tag.as_str(), "node") {
                    return Err(TemplateError::UnsupportedTag);
                }
                let style = match parse_style_attributes(attrs) {
                    Ok(style) => style,
                    Err(e) => {
                        return Err(TemplateError::Style(e));
                    },
                };
                let kids = match from_dioxus_all(children) {
                    Ok(kids) => kids,
                    Err(e) => {
                        return Err(e);
                    },
                };
                Ok(BevyTemplateNode::Node { style, children: kids })
            },
            TemplateNode::Text { text } => Ok(BevyTemplateNode::TextNode(text.clone())),
            TemplateNode::Dynamic { .. } => Ok(BevyTemplateNode::Placeholder),
            TemplateNode::DynamicText { .. } => {
                let empty = String::new();
                Ok(BevyTemplateNode::TextNode(empty))
            },
        }
    }

    /// Materialises this blueprint in `tree`: a container with its style,
    /// a text leaf with its text, a placeholder as an empty container
    /// without style. Gives the root of the new subtree, which has no
    /// parent. No handle is bound to any of the new nodes.
    pub fn spawn(&self, tree: &mut RetainedTree) -> (id: NodeId)
        requires
            old(tree).wf(),
        ensures
            final(tree).wf(),
            final(tree)@ == instantiated(old(tree)@, self@).0,
            id == instantiated(old(tree)@, self@).1,
        decreases self,
    {
        match self {
            BevyTemplateNode::Node { style, children } => {
                let kids = spawn_all(children, tree);
                proof {
                    lemma_instantiated_all(old(tree)@, blueprints(children@));
                }
                tree.spawn_parent(*style, kids)
            },
            BevyTemplateNode::TextNode(text) => tree.spawn(Style::default(), Some(text.clone())),
            BevyTemplateNode::Placeholder => tree.spawn(Style::default(), None),
        }
    }
}

/// Builds the blueprints of template nodes, in order.
fn from_dioxus_all(nodes: &Vec<TemplateNode>) -> (r: Result<Vec<BevyTemplateNode>, TemplateError>)
    ensures
        match compiled_all(nodes@) {
            Ok(bs) => r matches Ok(built) && blueprints(built@) == bs,
            Err(e) => r matches Err(given) && given == e,
        },
    decreases nodes,
{
    let mut built: Vec<BevyTemplateNode> = Vec::new();
    let mut i: usize = 0;
    assert(nodes@.take(0) =~= Seq::<TemplateNode>::empty());
    assert(blueprints(built@) =~= Seq::<Blueprint>::empty());
    while i < nodes.len()
        invariant
            i <= nodes@.len(),
            compiled_all(nodes@.take(i as int)) == Ok::<Seq<Blueprint>, TemplateError>(
                blueprints(built@),
            ),
        decreases nodes@.len() - i,
    {
        proof {
            let next = nodes@.take(i + 1);
            assert(next.drop_last() =~= nodes@.take(i as int));
            assert(next.last() == nodes@[i as int]);
        }
        let ghost before = built@;
        match BevyTemplateNode::from_dioxus(&nodes[i]) {
            Ok(b) => {
                built.push(b);
                assert(blueprints(built@) =~= blueprints(before).push(b@));
            },
            Err(e) => {
                proof {
                    lemma_rejection_stays(nodes@, i + 1);
                }
                return Err(e);
            },
        }
        i += 1;
    }
    assert(nodes@.take(i as int) =~= nodes@);
    Ok(built)
}

/// Once a prefix of the nodes is rejected, so is the whole list, for the
/// same reason.
proof fn lemma_rejection_stays(nodes: Seq<TemplateNode>, n: int)
    requires
        0 <= n <= nodes.len(),
        compiled_all(nodes.take(n)) is Err,
    ensures
        compiled_all(nodes) == compiled_all(nodes.take(n)),
    decreases nodes.len() - n,
{
    if n < nodes.len() {
        let next = nodes.take(n + 1);
        assert(next.drop_last() =~= nodes.take(n));
        lemma_rejection_stays(nodes, n + 1);
    } else {
        assert(nodes.take(n) =~= nodes);
    }
}

/// Materialises blueprints one after another, and gives their roots.
fn spawn_all(nodes: &Vec<BevyTemplateNode>, tree: &mut RetainedTree) -> (roots: Vec<NodeId>)
    requires
        old(tree).wf(),
    ensures
        final(tree).wf(),
        final(tree)@ == instantiated_all(old(tree)@, blueprints(nodes@)).0,
        roots@ == instantiated_all(old(tree)@, blueprints(nodes@)).1,
    decreases nodes,
{
    let ghost t0 = tree@;
    let ghost all = blueprints(nodes@);
    let mut roots: Vec<NodeId> = Vec::new();
    let mut i: usize = 0;
    assert(all.take(0) =~= Seq::<Blueprint>::empty());
    while i < nodes.len()
        invariant
            i <= nodes@.len(),
            all == blueprints(nodes@),
            tree.wf(),
            tree@ == instantiated_all(t0, all.take(i as int)).0,
            roots@ == instantiated_all(t0, all.take(i as int)).1,
        decreases nodes@.len() - i,
    {
        proof {
            let next = all.take(i + 1);
            assert(next.drop_last() =~= all.take(i as int));
            assert(next.last() == blueprint(nodes@[i as int]));
        }
        let id = nodes[i].spawn(tree);
        roots.push(id);
        i += 1;
    }
    assert(all.take(i as int) =~= all);
    roots
}

impl BevyTemplate {
    /// Builds a template from its definition.
    pub fn from_dioxus(template: &Template) -> (r: Result<BevyTemplate, TemplateError>)
        ensures
            match compiled_all(template.roots@) {
                Ok(bs) => r matches Ok(built) && built@ == bs,
                Err(e) => r matches Err(given) && given == e,
            },
    {
        match from_dioxus_all(&template.roots) {
            Ok(roots) => Ok(BevyTemplate { roots }),
            Err(e) => Err(e),
        }
    }
}

/// A hash table from template names to built templates, kept in a
/// `bevy::utils::HashMap`. Verus does not look inside; what the table holds
/// is `template_entries`.
#[verifier::external_body]
pub struct TemplateTable {
    inner: bevy::utils::HashMap<String, BevyTemplate>,
}

/// The templates that a table holds, by name.
pub uninterp spec fn template_entries(table: TemplateTable) -> Map<Seq<char>, Seq<Blueprint>>;

/// `hashbrown::HashMap::new`: the table it makes holds no template.
#[verifier::external_body]
fn templates_new() -> (table: TemplateTable)
    ensures
        template_entries(table).dom() == Set::<Seq<char>>::empty(),
{
    TemplateTable { inner: bevy::utils::HashMap::new() }
}

/// `hashbrown::HashMap::insert`: afterwards `name` maps to `template` and
/// every other name is as before.
#[verifier::external_body]
fn templates_insert(table: &mut TemplateTable, name: String, template: BevyTemplate)
    ensures
        template_entries(*final(table)) == template_entries(*old(table)).insert(name@, template@),
{
    table.inner.insert(name, template);
}

/// `hashbrown::HashMap::get`: the template that `name` maps to, if any.
#[verifier::external_body]
fn templates_get<'a>(table: &'a TemplateTable, name: &str) -> (found: Option<&'a BevyTemplate>)
    ensures
        match found {
            Some(template) => template_entries(*table).contains_key(name@) && template@
                == template_entries(*table)[name@],
            None => !template_entries(*table).contains_key(name@),
        },
{
    table.inner.get(name)
}

/// Why a template could not be materialised.
#[derive(Clone, Copy, Debug, PartialEq, Eq, Structural)]
pub enum InstantiateError {
    /// No template of that name is registered.
    UnknownTemplate,
    /// The template has no root of that index.
    RootIndexOutOfBounds,
}

/// Why the root `index` of the template `name` cannot be materialised, if
/// it cannot.
pub open spec fn instantiate_error(
    templates: Map<Seq<char>, Seq<Blueprint>>,
    name: Seq<char>,
    index: int,
) -> Option<InstantiateError> {
    if !templates.contains_key(name) {
        Some(InstantiateError::UnknownTemplate)
    } else if index >= templates[name].len() {
        Some(InstantiateError::RootIndexOutOfBounds)
    } else {
        None
    }
}

/// The template cache: the built templates of one UI root, by name.
pub struct TemplateCache {
    table: TemplateTable,
}

impl View for TemplateCache {
    type V = Map<Seq<char>, Seq<Blueprint>>;

    closed spec fn view(&self) -> Map<Seq<char>, Seq<Blueprint>> {
        template_entries(self.table)
    }
}

impl TemplateCache {
    /// A cache without templates.
    pub fn new() -> (cache: TemplateCache)
        ensures
            cache@ == Map::<Seq<char>, Seq<Blueprint>>::empty(),
    {
        let cache = TemplateCache { table: templates_new() };
        assert(cache@ =~= Map::<Seq<char>, Seq<Blueprint>>::empty());
        cache
    }

    /// Stores `template` under `name`, in place of what was there.
    pub fn register_template(&mut self, name: String, template: BevyTemplate)
        ensures
            final(self)@ == old(self)@.insert(name@, template@),
    {
        templates_insert(&mut self.table, name, template);
    }

    /// Materialises the root `root_index` of the template `name` in
    /// `tree`, and gives the root of the new subtree. No handle is bound to
    /// any of the new nodes: that is the caller's to do. A refused call
    /// leaves the tree as it was.
    pub fn instantiate(&self, name: &str, root_index: usize, tree: &mut RetainedTree) -> (r: Result<
        NodeId,
        InstantiateError,
    >)
        requires
            old(tree).wf(),
        ensures
            final(tree).wf(),
            match instantiate_error(self@, name@, root_index as int) {
                Some(e) => r == Err::<NodeId, InstantiateError>(e) && final(tree)@ == old(tree)@,
                None => r == Ok::<NodeId, InstantiateError>(
                    instantiated(old(tree)@, self@[name@][root_index as int]).1,
                ) && final(tree)@ == instantiated(old(tree)@, self@[name@][root_index as int]).0,
            },
    {
        let template = match self.get(name) {
            Some(template) => template,
            None => {
                return Err(InstantiateError::UnknownTemplate);
            },
        };
        if root_index >= template.roots.len() {
            return Err(InstantiateError::RootIndexOutOfBounds);
        }
        Ok(template.roots[root_index].spawn(tree))
    }

    /// The template stored under `name`.
    pub fn get(&self, name: &str) -> (found: Option<&BevyTemplate>)
        ensures
            match found {
                Some(template) => self@.contains_key(name@) && template@ == self@[name@],
                None => !self@.contains_key(name@),
            },
    {
        templates_get(&self.table, name)
    }
}

} // verus!
