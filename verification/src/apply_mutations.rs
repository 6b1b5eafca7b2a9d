//! The edit stream applier: it takes the templates and the ordered edits of
//! one batch and carries them out on the retained tree, the identity map and
//! the template cache of one UI root. Edits are applied strictly in order;
//! an edit that is rejected changes nothing, and ends the batch.
use crate::events::{is_supported_event, supported_event};
use crate::identity::{bound, purged, without_node, ElementId, IdentityMap, NodeId};
use crate::style::{set_style_attribute, styled, Style, StyleError};
use crate::template::{
    compiled_all, instantiated, instantiated_all, BevyTemplate, Blueprint, InstantiateError,
    Template, TemplateCache, TemplateError,
};
use crate::tree::{text_view, NodeView, RetainedTree, TreeError, TreeModel};
use vstd::prelude::*;

verus! {

/// The value of an attribute as the diff engine hands it over. Only text
/// can be resolved to a style.
pub enum AttributeValue {
    Text(String),
    Float,
    Int(i64),
    Bool(bool),
    Any,
    Empty,
}

/// One edit of the stream.
pub enum Mutation {
    AppendChildren { id: ElementId, m: usize },
    AssignId { path: Vec<u8>, id: ElementId },
    CreatePlaceholder { id: ElementId },
    CreateTextNode { value: String, id: ElementId },
    HydrateText { path: Vec<u8>, value: String, id: ElementId },
    LoadTemplate { name: String, index: usize, id: ElementId },
    ReplaceWith { id: ElementId, m: usize },
    ReplacePlaceholder { path: Vec<u8>, m: usize },
    InsertAfter { id: ElementId, m: usize },
    InsertBefore { id: ElementId, m: usize },
    SetAttribute { name: String, value: AttributeValue, id: ElementId },
    SetText { value: String, id: ElementId },
    NewEventListener { name: String, id: ElementId },
    RemoveEventListener { name: String, id: ElementId },
    Remove { id: ElementId },
    PushRoot { id: ElementId },
}

/// One batch: the templates that it introduces and its edits, in order.
pub struct Mutations {
    pub templates: Vec<Template>,
    pub edits: Vec<Mutation>,
}

/// Why an edit was rejected.
#[derive(Clone, Copy, Debug, PartialEq, Eq, Structural)]
pub enum ApplyError {
    /// The edit names a handle that is not bound.
    NotBound,
    /// The edit asks for more staged nodes than the stack holds.
    StackUnderflow,
    /// A path leads past the end of a list of children.
    PathOutOfBounds,
    /// No template of that name is registered.
    UnknownTemplate,
    /// The template has no root of that index.
    RootIndexOutOfBounds,
    /// The tree refused the change.
    Tree(TreeError),
    /// The value of the attribute is not text.
    UnsupportedAttributeValue,
    /// The attribute is not supported.
    Style(StyleError),
    /// The event is not supported.
    UnsupportedEvent,
}

/// Why a batch was rejected, and where.
#[derive(Clone, Copy, Debug, PartialEq, Eq, Structural)]
pub enum Rejected {
    /// The template of this index was rejected; those before it are
    /// registered, and no edit was applied.
    Template { index: usize, error: TemplateError },
    /// The edit of this index was rejected; those before it are applied.
    Edit { index: usize, error: ApplyError },
}

/// The state that the edits work on, as contracts speak of it: the tree,
/// the pairs of the identity map, and the stack of staged nodes.
pub struct Model {
    pub tree: TreeModel,
    pub ids: Map<ElementId, NodeId>,
    pub stack: Seq<NodeId>,
}

impl Model {
    /// The `count` nodes on top of the stack, in the order in which they
    /// were pushed.
    pub open spec fn staged(self, count: int) -> Seq<NodeId> {
        self.stack.subrange(self.stack.len() - count, self.stack.len() as int)
    }

    /// The stack without the `count` nodes on top.
    pub open spec fn unstaged(self, count: int) -> Seq<NodeId> {
        self.stack.subrange(0, self.stack.len() - count)
    }

    /// The state after the new node `node` of `tree` was bound to `handle`
    /// and pushed.
    pub open spec fn created(self, tree: TreeModel, node: NodeId, handle: ElementId) -> Model {
        Model { tree, ids: bound(self.ids, handle, node), stack: self.stack.push(node) }
    }

    /// Every bound node lives.
    pub open spec fn consistent(self) -> bool {
        consistent(self.tree, self.ids)
    }
}

/// Whether every node that a handle is bound to lives in the tree.
pub open spec fn consistent(tree: TreeModel, ids: Map<ElementId, NodeId>) -> bool {
    forall|h: ElementId| #[trigger] ids.contains_key(h) ==> tree.contains(ids[h])
}

/// The tree after each of `children`, in order, has become the last child
/// of `parent`.
pub open spec fn appended_all(t: TreeModel, parent: NodeId, children: Seq<NodeId>) -> TreeModel
    decreases children.len(),
{
    if children.len() == 0 {
        t
    } else {
        appended_all(t, parent, children.drop_last()).appended(parent, children.last())
    }
}

/// Why `children` cannot become children of `parent`: the parent is gone,
/// or else the reason of the first child that cannot.
pub open spec fn append_error(t: TreeModel, parent: NodeId, children: Seq<NodeId>) -> Option<
    TreeError,
>
    decreases children.len(),
{
    if children.len() == 0 {
        if t.contains(parent) {
            None
        } else {
            Some(TreeError::NoSuchNode)
        }
    } else {
        match append_error(t, parent, children.drop_last()) {
            Some(e) => Some(e),
            None => t.add_child_error(parent, children.last()),
        }
    }
}

/// The tree after `nodes` have moved to the place just before `anchor`, or
/// just after it, in their order.
pub open spec fn placed_all(t: TreeModel, anchor: NodeId, nodes: Seq<NodeId>, after: bool) -> TreeModel
    decreases nodes.len(),
{
    if nodes.len() == 0 {
        t
    } else if after {
        placed_all(t, anchor, nodes.skip(1), true).placed(anchor, nodes[0], true)
    } else {
        placed_all(t, anchor, nodes.drop_last(), false).placed(anchor, nodes.last(), false)
    }
}

/// Why `nodes` cannot be inserted beside `anchor`: the reason that holds of
/// the anchor alone, or else that of the first node that cannot.
pub open spec fn place_error(t: TreeModel, anchor: NodeId, nodes: Seq<NodeId>) -> Option<TreeError>
    decreases nodes.len(),
{
    if nodes.len() == 0 {
        t.anchor_error(anchor)
    } else {
        match place_error(t, anchor, nodes.drop_last()) {
            Some(e) => Some(e),
            None => t.beside_error(anchor, nodes.last()),
        }
    }
}

pub open spec fn load_template_step(
    templates: Map<Seq<char>, Seq<Blueprint>>,
    model: Model,
    name: Seq<char>,
    index: int,
    id: ElementId,
) -> Result<Model, ApplyError> {
    if !templates.contains_key(name) {
        Err(ApplyError::UnknownTemplate)
    } else if index >= templates[name].len() {
        Err(ApplyError::RootIndexOutOfBounds)
    } else {
        let (tree, node) = instantiated(model.tree, templates[name][index]);
        Ok(model.created(tree, node, id))
    }
}

pub open spec fn create_step(model: Model, text: Option<Seq<char>>, id: ElementId) -> Result<
    Model,
    ApplyError,
> {
    Ok(model.created(model.tree.spawned(Style::initial(), text), model.tree.fresh(), id))
}

pub open spec fn push_root_step(model: Model, id: ElementId) -> Result<Model, ApplyError> {
    if !model.ids.contains_key(id) {
        Err(ApplyError::NotBound)
    } else {
        Ok(Model { stack: model.stack.push(model.ids[id]), ..model })
    }
}

/// The node that `path` leads to from the node `below` the top of the
/// stack.
pub open spec fn walked(tree: TreeModel, stack: Seq<NodeId>, below: int, path: Seq<u8>) -> Result<
    NodeId,
    ApplyError,
> {
    if below >= stack.len() {
        Err(ApplyError::StackUnderflow)
    } else {
        match tree.walk(stack[stack.len() - 1 - below], path) {
            Some(node) => Ok(node),
            None => Err(ApplyError::PathOutOfBounds),
        }
    }
}

pub open spec fn assign_id_step(model: Model, path: Seq<u8>, id: ElementId) -> Result<
    Model,
    ApplyError,
> {
    match walked(model.tree, model.stack, 0, path) {
        Err(e) => Err(e),
        Ok(node) => Ok(Model { ids: bound(model.ids, id, node), ..model }),
    }
}

pub open spec fn hydrate_text_step(
    model: Model,
    path: Seq<u8>,
    text: Seq<char>,
    id: ElementId,
) -> Result<Model, ApplyError> {
    match walked(model.tree, model.stack, 0, path) {
        Err(e) => Err(e),
        Ok(node) => Ok(
            Model {
                tree: model.tree.with_text(node, text),
                ids: bound(model.ids, id, node),
                ..model
            },
        ),
    }
}

/// The live node that `id` is bound to.
pub open spec fn target(tree: TreeModel, ids: Map<ElementId, NodeId>, id: ElementId) -> Result<
    NodeId,
    ApplyError,
> {
    if !ids.contains_key(id) {
        Err(ApplyError::NotBound)
    } else if !tree.contains(ids[id]) {
        Err(ApplyError::Tree(TreeError::NoSuchNode))
    } else {
        Ok(ids[id])
    }
}

pub open spec fn set_text_step(model: Model, text: Seq<char>, id: ElementId) -> Result<
    Model,
    ApplyError,
> {
    match target(model.tree, model.ids, id) {
        Err(e) => Err(e),
        Ok(node) => Ok(Model { tree: model.tree.with_text(node, text), ..model }),
    }
}

pub open spec fn set_attribute_step(
    model: Model,
    name: Seq<char>,
    value: AttributeValue,
    id: ElementId,
) -> Result<Model, ApplyError> {
    match value {
        AttributeValue::Text(text) => match target(model.tree, model.ids, id) {
            Err(e) => Err(e),
            Ok(node) => match styled(model.tree.nodes[node].style, name, text@) {
                Err(e) => Err(ApplyError::Style(e)),
                Ok(style) => Ok(Model { tree: model.tree.with_style(node, style), ..model }),
            },
        },
        _ => Err(ApplyError::UnsupportedAttributeValue),
    }
}

pub open spec fn listener_step(model: Model, name: Seq<char>) -> Result<Model, ApplyError> {
    if supported_event(name) {
        Ok(model)
    } else {
        Err(ApplyError::UnsupportedEvent)
    }
}

pub open spec fn append_children_step(model: Model, id: ElementId, count: int) -> Result<
    Model,
    ApplyError,
> {
    if !model.ids.contains_key(id) {
        Err(ApplyError::NotBound)
    } else if count > model.stack.len() {
        Err(ApplyError::StackUnderflow)
    } else {
        match append_error(model.tree, model.ids[id], model.staged(count)) {
            Some(e) => Err(ApplyError::Tree(e)),
            None => Ok(
                Model {
                    tree: appended_all(model.tree, model.ids[id], model.staged(count)),
                    ids: model.ids,
                    stack: model.unstaged(count),
                },
            ),
        }
    }
}

pub open spec fn insert_step(model: Model, id: ElementId, count: int, after: bool) -> Result<
    Model,
    ApplyError,
> {
    if !model.ids.contains_key(id) {
        Err(ApplyError::NotBound)
    } else if count > model.stack.len() {
        Err(ApplyError::StackUnderflow)
    } else {
        match place_error(model.tree, model.ids[id], model.staged(count)) {
            Some(e) => Err(ApplyError::Tree(e)),
            None => Ok(
                Model {
                    tree: placed_all(model.tree, model.ids[id], model.staged(count), after),
                    ids: model.ids,
                    stack: model.unstaged(count),
                },
            ),
        }
    }
}

/// The state after the `count` nodes on top of the stack have taken the
/// place of `anchor`: they stand where it stood, its subtree is gone, and so
/// is every pair of a node of that subtree.
pub open spec fn replaced(model: Model, anchor: NodeId, count: int) -> Result<Model, ApplyError> {
    match place_error(model.tree, anchor, model.staged(count)) {
        Some(e) => Err(ApplyError::Tree(e)),
        None => {
            let moved = placed_all(model.tree, anchor, model.staged(count), false);
            Ok(
                Model {
                    tree: moved.without_subtree(anchor),
                    ids: purged(model.ids, moved.subtree(anchor)),
                    stack: model.unstaged(count),
                },
            )
        },
    }
}

pub open spec fn replace_with_step(model: Model, id: ElementId, count: int) -> Result<
    Model,
    ApplyError,
> {
    if !model.ids.contains_key(id) {
        Err(ApplyError::NotBound)
    } else if count > model.stack.len() {
        Err(ApplyError::StackUnderflow)
    } else {
        replaced(model, model.ids[id], count)
    }
}

pub open spec fn replace_placeholder_step(model: Model, path: Seq<u8>, count: int) -> Result<
    Model,
    ApplyError,
> {
    match walked(model.tree, model.stack, count, path) {
        Err(e) => Err(e),
        Ok(anchor) => replaced(model, anchor, count),
    }
}

pub open spec fn remove_step(model: Model, id: ElementId) -> Result<Model, ApplyError> {
    if !model.ids.contains_key(id) {
        Err(ApplyError::NotBound)
    } else {
        Ok(
            Model {
                tree: model.tree.without_subtree(model.ids[id]),
                ids: purged(model.ids, model.tree.subtree(model.ids[id])).remove(id),
                stack: model.stack,
            },
        )
    }
}

/// What one edit makes of a state, or why it is rejected.
#[verifier::opaque]
pub open spec fn step(templates: Map<Seq<char>, Seq<Blueprint>>, model: Model, edit: Mutation) -> Result<
    Model,
    ApplyError,
> {
    match edit {
        Mutation::AppendChildren { id, m } => append_children_step(model, id, m as int),
        Mutation::AssignId { path, id } => assign_id_step(model, path@, id),
        Mutation::CreatePlaceholder { id } => create_step(model, None, id),
        Mutation::CreateTextNode { value, id } => create_step(model, Some(value@), id),
        Mutation::HydrateText { path, value, id } => hydrate_text_step(model, path@, value@, id),
        Mutation::LoadTemplate { name, index, id } => load_template_step(
            templates,
            model,
            name@,
            index as int,
            id,
        ),
        Mutation::ReplaceWith { id, m } => replace_with_step(model, id, m as int),
        Mutation::ReplacePlaceholder { path, m } => replace_placeholder_step(
            model,
            path@,
            m as int,
        ),
        Mutation::InsertAfter { id, m } => insert_step(model, id, m as int, true),
        Mutation::InsertBefore { id, m } => insert_step(model, id, m as int, false),
        Mutation::SetAttribute { name, value, id } => set_attribute_step(model, name@, value, id),
        Mutation::SetText { value, id } => set_text_step(model, value@, id),
        Mutation::NewEventListener { name, id } => listener_step(model, name@),
        Mutation::RemoveEventListener { name, id } => listener_step(model, name@),
        Mutation::Remove { id } => remove_step(model, id),
        Mutation::PushRoot { id } => push_root_step(model, id),
    }
}

/// The state after every one of `edits` was applied in order, if none of
/// them is rejected.
pub open spec fn all_applied(
    templates: Map<Seq<char>, Seq<Blueprint>>,
    model: Model,
    edits: Seq<Mutation>,
) -> Option<Model>
    decreases edits.len(),
{
    if edits.len() == 0 {
        Some(model)
    } else {
        match all_applied(templates, model, edits.drop_last()) {
            Some(before) => match step(templates, before, edits.last()) {
                Ok(after) => Some(after),
                Err(_) => None,
            },
            None => None,
        }
    }
}

/// Whether every one of `templates` can be built.
pub open spec fn all_compile(templates: Seq<Template>) -> bool {
    forall|i: int| 0 <= i < templates.len() ==> compiled_all((#[trigger] templates[i]).roots@) is Ok
}

/// The cache after each of `templates` was built and stored under its
/// name, in order.
pub open spec fn registered(
    cache: Map<Seq<char>, Seq<Blueprint>>,
    templates: Seq<Template>,
) -> Map<Seq<char>, Seq<Blueprint>>
    decreases templates.len(),
{
    if templates.len() == 0 {
        cache
    } else {
        registered(cache, templates.drop_last()).insert(
            templates.last().name@,
            compiled_all(templates.last().roots@)->Ok_0,
        )
    }
}

/// The state in which a batch starts: handle 0 is bound to the root, and
/// the root alone is staged.
pub open spec fn mounted(tree: TreeModel, ids: Map<ElementId, NodeId>, root: NodeId) -> Model {
    Model { tree, ids: bound(ids, ElementId(0), root), stack: seq![root] }
}

/// Whether `r` and the state `after` are what `expected` asks for: on
/// success the new state, on rejection the error and the state `before`.
pub open spec fn outcome(
    expected: Result<Model, ApplyError>,
    before: Model,
    r: Result<(), ApplyError>,
    after: Model,
) -> bool {
    match expected {
        Ok(model) => r is Ok && after == model,
        Err(e) => r == Err::<(), ApplyError>(e) && after == before,
    }
}

/// Once a prefix of the children is refused, so is the whole list, for the
/// same reason.
proof fn lemma_append_error_stays(t: TreeModel, parent: NodeId, children: Seq<NodeId>, n: int)
    requires
        0 <= n <= children.len(),
        append_error(t, parent, children.take(n)) is Some,
    ensures
        append_error(t, parent, children) == append_error(t, parent, children.take(n)),
    decreases children.len() - n,
{
    if n < children.len() {
        assert(children.take(n + 1).drop_last() =~= children.take(n));
        lemma_append_error_stays(t, parent, children, n + 1);
    } else {
        assert(children.take(n) =~= children);
    }
}

proof fn lemma_place_error_stays(t: TreeModel, anchor: NodeId, nodes: Seq<NodeId>, n: int)
    requires
        0 <= n <= nodes.len(),
        place_error(t, anchor, nodes.take(n)) is Some,
    ensures
        place_error(t, anchor, nodes) == place_error(t, anchor, nodes.take(n)),
    decreases nodes.len() - n,
{
    if n < nodes.len() {
        assert(nodes.take(n + 1).drop_last() =~= nodes.take(n));
        lemma_place_error_stays(t, anchor, nodes, n + 1);
    } else {
        assert(nodes.take(n) =~= nodes);
    }
}

/// Where nothing stands in the way, no single child is refused.
proof fn lemma_append_error_none(t: TreeModel, parent: NodeId, children: Seq<NodeId>, i: int)
    requires
        append_error(t, parent, children) is None,
        0 <= i < children.len(),
    ensures
        t.add_child_error(parent, children[i]) is None,
    decreases children.len(),
{
    if i < children.len() - 1 {
        lemma_append_error_none(t, parent, children.drop_last(), i);
    }
}

proof fn lemma_place_error_none(t: TreeModel, anchor: NodeId, nodes: Seq<NodeId>, i: int)
    requires
        place_error(t, anchor, nodes) is None,
        0 <= i < nodes.len(),
    ensures
        t.beside_error(anchor, nodes[i]) is None,
    decreases nodes.len(),
{
    if i < nodes.len() - 1 {
        lemma_place_error_none(t, anchor, nodes.drop_last(), i);
    }
}

/// Moving children to a parent keeps the tree well-formed and its nodes
/// the same.
pub proof fn lemma_appended_all_keeps(t: TreeModel, parent: NodeId, children: Seq<NodeId>)
    requires
        t.wf(),
        append_error(t, parent, children) is None,
    ensures
        appended_all(t, parent, children).wf(),
        forall|n: NodeId| appended_all(t, parent, children).contains(n) <==> t.contains(n),
    decreases children.len(),
{
    if children.len() > 0 {
        lemma_appended_all_keeps(t, parent, children.drop_last());
        let before = appended_all(t, parent, children.drop_last());
        assert(t.contains(parent)) by {
            lemma_append_error_parent(t, parent, children.drop_last());
        }
        before.lemma_appended_keeps(parent, children.last());
    }
}

proof fn lemma_append_error_parent(t: TreeModel, parent: NodeId, children: Seq<NodeId>)
    requires
        append_error(t, parent, children) is None,
    ensures
        t.contains(parent),
    decreases children.len(),
{
    if children.len() > 0 {
        lemma_append_error_parent(t, parent, children.drop_last());
    }
}

proof fn lemma_place_error_anchor(t: TreeModel, anchor: NodeId, nodes: Seq<NodeId>)
    requires
        place_error(t, anchor, nodes) is None,
    ensures
        t.anchor_error(anchor) is None,
    decreases nodes.len(),
{
    if nodes.len() > 0 {
        lemma_place_error_anchor(t, anchor, nodes.drop_last());
    }
}

/// Moving nodes beside an anchor keeps the tree well-formed, its nodes the
/// same, and the anchor where it hangs.
pub proof fn lemma_placed_all_keeps(t: TreeModel, anchor: NodeId, nodes: Seq<NodeId>, after: bool)
    requires
        t.wf(),
        place_error(t, anchor, nodes) is None,
    ensures
        placed_all(t, anchor, nodes, after).wf(),
        forall|n: NodeId| placed_all(t, anchor, nodes, after).contains(n) <==> t.contains(n),
        placed_all(t, anchor, nodes, after).parent(anchor) == t.parent(anchor),
    decreases nodes.len(),
{
    if nodes.len() > 0 {
        lemma_place_error_anchor(t, anchor, nodes);
        if after {
            let rest = nodes.skip(1);
            assert(place_error(t, anchor, rest) is None) by {
                lemma_place_error_skip(t, anchor, nodes);
            }
            lemma_placed_all_keeps(t, anchor, rest, true);
            let before = placed_all(t, anchor, rest, true);
            lemma_place_error_none(t, anchor, nodes, 0);
            assert(before.beside_error(anchor, nodes[0]) is None);
            before.lemma_placed_keeps(anchor, nodes[0], true);
        } else {
            lemma_placed_all_keeps(t, anchor, nodes.drop_last(), false);
            let before = placed_all(t, anchor, nodes.drop_last(), false);
            lemma_place_error_none(t, anchor, nodes, nodes.len() - 1);
            assert(before.beside_error(anchor, nodes.last()) is None);
            before.lemma_placed_keeps(anchor, nodes.last(), false);
        }
    }
}

proof fn lemma_place_error_skip(t: TreeModel, anchor: NodeId, nodes: Seq<NodeId>)
    requires
        nodes.len() > 0,
        place_error(t, anchor, nodes) is None,
    ensures
        place_error(t, anchor, nodes.skip(1)) is None,
    decreases nodes.len(),
{
    let rest = nodes.skip(1);
    if rest.len() == 0 {
        lemma_place_error_anchor(t, anchor, nodes);
    } else {
        assert(rest.drop_last() =~= nodes.drop_last().skip(1));
        lemma_place_error_skip(t, anchor, nodes.drop_last());
        assert(rest.last() == nodes.last());
    }
}

/// Materialising a blueprint keeps every node that was there, and the new
/// root lives.
pub proof fn lemma_instantiated_grows(t: TreeModel, b: Blueprint)
    ensures
        forall|n: NodeId| t.contains(n) ==> instantiated(t, b).0.contains(n),
        instantiated(t, b).0.contains(instantiated(t, b).1),
    decreases b,
{
    match b {
        Blueprint::Container { style, children } => {
            lemma_instantiated_all_grows(t, children);
        },
        _ => {},
    }
}

proof fn lemma_instantiated_all_grows(t: TreeModel, bs: Seq<Blueprint>)
    ensures
        forall|n: NodeId| t.contains(n) ==> instantiated_all(t, bs).0.contains(n),
    decreases bs,
{
    if bs.len() > 0 {
        lemma_instantiated_all_grows(t, bs.drop_last());
        lemma_instantiated_grows(instantiated_all(t, bs.drop_last()).0, bs.last());
    }
}

/// No leaks on removal: once the node of `id` was removed with all that
/// stood below it, neither `id` nor the handle of any node of that subtree
/// is bound any more.
pub proof fn lemma_remove_leaves_no_handle(model: Model, id: ElementId)
    requires
        model.ids.contains_key(id),
    ensures
        remove_step(model, id) is Ok,
        !remove_step(model, id)->Ok_0.ids.contains_key(id),
        forall|h: ElementId|
            model.ids.contains_key(h) && model.tree.in_subtree(model.ids[id], model.ids[h])
                ==> !(#[trigger] remove_step(model, id)->Ok_0.ids.contains_key(h)),
{
}

/// No leaks on replacement: once the staged nodes have taken the place of
/// the node of `id`, neither `id` nor the handle of any node that stood
/// below that node when it was removed is bound any more.
pub proof fn lemma_replace_leaves_no_handle(model: Model, id: ElementId, count: int)
    requires
        model.tree.wf(),
        replace_with_step(model, id, count) is Ok,
    ensures
        !replace_with_step(model, id, count)->Ok_0.ids.contains_key(id),
        forall|h: ElementId|
            model.ids.contains_key(h) && placed_all(
                model.tree,
                model.ids[id],
                model.staged(count),
                false,
            ).in_subtree(model.ids[id], model.ids[h]) ==> !(#[trigger] replace_with_step(
                model,
                id,
                count,
            )->Ok_0.ids.contains_key(h)),
{
    let anchor = model.ids[id];
    let moved = placed_all(model.tree, anchor, model.staged(count), false);
    lemma_placed_all_keeps(model.tree, anchor, model.staged(count), false);
    lemma_place_error_anchor(model.tree, anchor, model.staged(count));
    assert(moved.ancestor(anchor, 0) == Some(anchor));
    assert(moved.in_subtree(anchor, anchor));
}

/// No handle is left hanging: where every bound node lives before an edit,
/// every bound node lives after it.
pub proof fn lemma_step_consistent(
    templates: Map<Seq<char>, Seq<Blueprint>>,
    model: Model,
    edit: Mutation,
)
    requires
        model.tree.wf(),
        model.consistent(),
        step(templates, model, edit) is Ok,
    ensures
        step(templates, model, edit)->Ok_0.consistent(),
{
    reveal(step);
    let after = step(templates, model, edit)->Ok_0;
    match edit {
        Mutation::AppendChildren { id, m } => {
            lemma_appended_all_keeps(model.tree, model.ids[id], model.staged(m as int));
        },
        Mutation::AssignId { path, id } => {
            model.tree.lemma_walk_lives(model.stack[model.stack.len() - 1], path@);
        },
        Mutation::HydrateText { path, value, id } => {
            model.tree.lemma_walk_lives(model.stack[model.stack.len() - 1], path@);
        },
        Mutation::LoadTemplate { name, index, id } => {
            lemma_instantiated_grows(model.tree, templates[name@][index as int]);
        },
        Mutation::ReplaceWith { id, m } => {
            lemma_replaced_consistent(model, model.ids[id], m as int);
        },
        Mutation::ReplacePlaceholder { path, m } => {
            lemma_replaced_consistent(model, walked(model.tree, model.stack, m as int, path@)->Ok_0, m as int);
        },
        Mutation::InsertAfter { id, m } => {
            lemma_placed_all_keeps(model.tree, model.ids[id], model.staged(m as int), true);
        },
        Mutation::InsertBefore { id, m } => {
            lemma_placed_all_keeps(model.tree, model.ids[id], model.staged(m as int), false);
        },
        Mutation::Remove { id } => {
            lemma_pruned_consistent(model.tree, model.ids, model.ids[id]);
        },
        _ => {},
    }
    assert forall|h: ElementId| #[trigger] after.ids.contains_key(h) implies after.tree.contains(
        after.ids[h],
    ) by {
        if model.ids.contains_key(h) {
            assert(model.tree.contains(model.ids[h]));
        }
    }
}

/// What is left bound after a subtree went lives in what is left of the
/// tree.
proof fn lemma_pruned_consistent(t: TreeModel, ids: Map<ElementId, NodeId>, root: NodeId)
    requires
        t.wf(),
        forall|h: ElementId| #[trigger] ids.contains_key(h) ==> t.contains(ids[h]),
    ensures
        forall|h: ElementId| #[trigger]
            purged(ids, t.subtree(root)).contains_key(h) ==> t.without_subtree(root).contains(
                purged(ids, t.subtree(root))[h],
            ),
{
    assert forall|h: ElementId| #[trigger]
        purged(ids, t.subtree(root)).contains_key(h) implies t.without_subtree(root).contains(
        purged(ids, t.subtree(root))[h],
    ) by {
        assert(ids.contains_key(h));
        assert(t.contains(ids[h]));
        assert(t.detached(root).contains(ids[h]));
    }
}

proof fn lemma_replaced_consistent(model: Model, anchor: NodeId, count: int)
    requires
        model.tree.wf(),
        model.consistent(),
        replaced(model, anchor, count) is Ok,
    ensures
        replaced(model, anchor, count)->Ok_0.consistent(),
{
    let moved = placed_all(model.tree, anchor, model.staged(count), false);
    lemma_placed_all_keeps(model.tree, anchor, model.staged(count), false);
    assert forall|h: ElementId| #[trigger] model.ids.contains_key(h) implies moved.contains(
        model.ids[h],
    ) by {
        assert(model.tree.contains(model.ids[h]));
    }
    lemma_pruned_consistent(moved, model.ids, anchor);
}

/// The `count` nodes on top of the stack, copied.
fn copy_staged(stack: &Vec<NodeId>, count: usize) -> (staged: Vec<NodeId>)
    requires
        count <= stack@.len(),
    ensures
        staged@ == stack@.subrange(stack@.len() - count, stack@.len() as int),
{
    let start = stack.len() - count;
    let mut staged: Vec<NodeId> = Vec::new();
    let mut i: usize = start;
    while i < stack.len()
        invariant
            start <= i <= stack@.len(),
            staged@ == stack@.subrange(start as int, i as int),
        decreases stack@.len() - i,
    {
        staged.push(stack[i]);
        assert(staged@ =~= stack@.subrange(start as int, i + 1));
        i += 1;
    }
    staged
}

/// Finds why `children` cannot become children of `parent`.
fn find_append_error(tree: &RetainedTree, parent: NodeId, children: &Vec<NodeId>) -> (e: Option<
    TreeError,
>)
    ensures
        e == append_error(tree@, parent, children@),
{
    if !tree.contains(parent) {
        proof {
            assert(children@.take(0) =~= Seq::<NodeId>::empty());
            lemma_append_error_stays(tree@, parent, children@, 0);
        }
        return Some(TreeError::NoSuchNode);
    }
    let mut i: usize = 0;
    assert(children@.take(0) =~= Seq::<NodeId>::empty());
    while i < children.len()
        invariant
            i <= children@.len(),
            append_error(tree@, parent, children@.take(i as int)) is None,
        decreases children@.len() - i,
    {
        proof {
            let next = children@.take(i + 1);
            assert(next.drop_last() =~= children@.take(i as int));
            assert(next.last() == children@[i as int]);
        }
        if let Some(e) = tree.add_child_error(parent, children[i]) {
            proof {
                lemma_append_error_stays(tree@, parent, children@, i + 1);
            }
            return Some(e);
        }
        i += 1;
    }
    assert(children@.take(i as int) =~= children@);
    None
}

/// Finds why `nodes` cannot be inserted beside `anchor`.
fn find_place_error(tree: &RetainedTree, anchor: NodeId, nodes: &Vec<NodeId>) -> (e: Option<
    TreeError,
>)
    ensures
        e == place_error(tree@, anchor, nodes@),
{
    assert(nodes@.take(0) =~= Seq::<NodeId>::empty());
    if let Some(e) = tree.anchor_error(anchor) {
        proof {
            lemma_place_error_stays(tree@, anchor, nodes@, 0);
        }
        return Some(e);
    }
    let mut i: usize = 0;
    while i < nodes.len()
        invariant
            i <= nodes@.len(),
            place_error(tree@, anchor, nodes@.take(i as int)) is None,
        decreases nodes@.len() - i,
    {
        proof {
            let next = nodes@.take(i + 1);
            assert(next.drop_last() =~= nodes@.take(i as int));
            assert(next.last() == nodes@[i as int]);
        }
        if let Some(e) = tree.beside_error(anchor, nodes[i]) {
            proof {
                lemma_place_error_stays(tree@, anchor, nodes@, i + 1);
            }
            return Some(e);
        }
        i += 1;
    }
    assert(nodes@.take(i as int) =~= nodes@);
    None
}

/// Makes each of `children`, in order, the last child of `parent`.
fn append_all(tree: &mut RetainedTree, parent: NodeId, children: &Vec<NodeId>)
    requires
        old(tree).wf(),
        append_error(old(tree)@, parent, children@) is None,
    ensures
        final(tree).wf(),
        final(tree)@ == appended_all(old(tree)@, parent, children@),
{
    let ghost t0 = tree@;
    let mut i: usize = 0;
    assert(children@.take(0) =~= Seq::<NodeId>::empty());
    while i < children.len()
        invariant
            i <= children@.len(),
            tree.wf(),
            t0 == old(tree)@,
            append_error(t0, parent, children@) is None,
            tree@ == appended_all(t0, parent, children@.take(i as int)),
            forall|n: NodeId| tree@.contains(n) <==> t0.contains(n),
        decreases children@.len() - i,
    {
        proof {
            let next = children@.take(i + 1);
            assert(next.drop_last() =~= children@.take(i as int));
            assert(next.last() == children@[i as int]);
            lemma_append_error_none(t0, parent, children@, i as int);
            tree@.lemma_appended_keeps(parent, children@[i as int]);
        }
        let moved = tree.add_child(parent, children[i]);
        assert(moved is Ok);
        i += 1;
    }
    assert(children@.take(i as int) =~= children@);
}

/// Moves `nodes` to the place just before `anchor`, or just after it, in
/// their order.
fn place_all(tree: &mut RetainedTree, anchor: NodeId, nodes: &Vec<NodeId>, after: bool)
    requires
        old(tree).wf(),
        place_error(old(tree)@, anchor, nodes@) is None,
    ensures
        final(tree).wf(),
        final(tree)@ == placed_all(old(tree)@, anchor, nodes@, after),
{
    let ghost t0 = tree@;
    if after {
        let mut i: usize = nodes.len();
        assert(nodes@.skip(i as int) =~= Seq::<NodeId>::empty());
        while i > 0
            invariant
                i <= nodes@.len(),
                tree.wf(),
                t0 == old(tree)@,
                place_error(t0, anchor, nodes@) is None,
                tree@ == placed_all(t0, anchor, nodes@.skip(i as int), true),
                forall|n: NodeId| tree@.contains(n) <==> t0.contains(n),
                tree@.parent(anchor) == t0.parent(anchor),
            decreases i,
        {
            i -= 1;
            proof {
                let next = nodes@.skip(i as int);
                assert(next.skip(1) =~= nodes@.skip(i + 1));
                assert(next[0] == nodes@[i as int]);
                lemma_place_error_none(t0, anchor, nodes@, i as int);
                assert(tree@.beside_error(anchor, nodes@[i as int]) is None);
                tree@.lemma_placed_keeps(anchor, nodes@[i as int], true);
            }
            let moved = tree.insert_beside(anchor, nodes[i], true);
            assert(moved is Ok);
        }
        assert(nodes@.skip(0) =~= nodes@);
    } else {
        let mut i: usize = 0;
        assert(nodes@.take(0) =~= Seq::<NodeId>::empty());
        while i < nodes.len()
            invariant
                i <= nodes@.len(),
                tree.wf(),
                t0 == old(tree)@,
                place_error(t0, anchor, nodes@) is None,
                tree@ == placed_all(t0, anchor, nodes@.take(i as int), false),
                forall|n: NodeId| tree@.contains(n) <==> t0.contains(n),
                tree@.parent(anchor) == t0.parent(anchor),
            decreases nodes@.len() - i,
        {
            proof {
                let next = nodes@.take(i + 1);
                assert(next.drop_last() =~= nodes@.take(i as int));
                assert(next.last() == nodes@[i as int]);
                lemma_place_error_none(t0, anchor, nodes@, i as int);
                assert(tree@.beside_error(anchor, nodes@[i as int]) is None);
                tree@.lemma_placed_keeps(anchor, nodes@[i as int], false);
            }
            let moved = tree.insert_beside(anchor, nodes[i], false);
            assert(moved is Ok);
            i += 1;
        }
        assert(nodes@.take(i as int) =~= nodes@);
    }
}

/// Removes every pair of a node in `removed`.
fn purge(ids: &mut IdentityMap, removed: &Vec<NodeId>)
    requires
        old(ids).wf(),
    ensures
        final(ids).wf(),
        final(ids)@ == purged(old(ids)@, removed@.to_set()),
{
    let ghost ids0 = ids@;
    let mut i: usize = 0;
    assert(ids@ =~= purged(ids0, removed@.take(0).to_set()));
    while i < removed.len()
        invariant
            i <= removed@.len(),
            ids.wf(),
            ids@ == purged(ids0, removed@.take(i as int).to_set()),
        decreases removed@.len() - i,
    {
        let ghost before = ids@;
        ids.unbind_by_id(removed[i]);
        proof {
            let then = removed@.take(i as int);
            let now = removed@.take(i + 1);
            assert(now[i as int] == removed@[i as int]);
            assert forall|n: NodeId| now.contains(n) <==> (then.contains(n) || n
                == removed@[i as int]) by {
                if then.contains(n) {
                    let j = choose|j: int| 0 <= j < then.len() && then[j] == n;
                    assert(now[j] == n);
                }
                if now.contains(n) && n != removed@[i as int] {
                    let j = choose|j: int| 0 <= j < now.len() && now[j] == n;
                    assert(then[j] == n);
                }
            }
            assert(without_node(before, removed@[i as int]) =~= purged(ids0, now.to_set()));
        }
        i += 1;
    }
    assert(removed@.take(i as int) =~= removed@);
}

/// The node that `path` leads to from the node `below` the top of the
/// stack.
fn walk_from(tree: &RetainedTree, stack: &Vec<NodeId>, below: usize, path: &Vec<u8>) -> (r: Result<
    NodeId,
    ApplyError,
>)
    ensures
        r == walked(tree@, stack@, below as int, path@),
{
    if below >= stack.len() {
        return Err(ApplyError::StackUnderflow);
    }
    match tree.walk(stack[stack.len() - 1 - below], path) {
        Some(node) => Ok(node),
        None => Err(ApplyError::PathOutOfBounds),
    }
}

/// The live node that `id` is bound to.
fn find_target(tree: &RetainedTree, ids: &IdentityMap, id: ElementId) -> (r: Result<
    NodeId,
    ApplyError,
>)
    ensures
        r == target(tree@, ids@, id),
{
    match ids.resolve(id) {
        Ok(node) => if tree.contains(node) {
            Ok(node)
        } else {
            Err(ApplyError::Tree(TreeError::NoSuchNode))
        },
        Err(_) => Err(ApplyError::NotBound),
    }
}

/// Puts the `count` nodes on top of the stack in the place of `anchor`.
fn replace(
    tree: &mut RetainedTree,
    ids: &mut IdentityMap,
    stack: &mut Vec<NodeId>,
    anchor: NodeId,
    count: usize,
) -> (r: Result<(), ApplyError>)
    requires
        old(tree).wf(),
        old(ids).wf(),
        count <= old(stack)@.len(),
    ensures
        final(tree).wf(),
        final(ids).wf(),
        outcome(
            replaced(
                Model { tree: old(tree)@, ids: old(ids)@, stack: old(stack)@ },
                anchor,
                count as int,
            ),
            Model { tree: old(tree)@, ids: old(ids)@, stack: old(stack)@ },
            r,
            Model { tree: final(tree)@, ids: final(ids)@, stack: final(stack)@ },
        ),
{
    let staged = copy_staged(stack, count);
    if let Some(e) = find_place_error(tree, anchor, &staged) {
        return Err(ApplyError::Tree(e));
    }
    place_all(tree, anchor, &staged, false);
    let ghost moved = tree@;
    let removed = tree.despawn_recursive(anchor);
    assert(removed@.to_set() =~= moved.subtree(anchor));
    purge(ids, &removed);
    stack.truncate(stack.len() - count);
    Ok(())
}

fn append_children(
    tree: &mut RetainedTree,
    ids: &IdentityMap,
    stack: &mut Vec<NodeId>,
    id: ElementId,
    count: usize,
) -> (r: Result<(), ApplyError>)
    requires
        old(tree).wf(),
    ensures
        final(tree).wf(),
        outcome(
            append_children_step(
                Model { tree: old(tree)@, ids: ids@, stack: old(stack)@ },
                id,
                count as int,
            ),
            Model { tree: old(tree)@, ids: ids@, stack: old(stack)@ },
            r,
            Model { tree: final(tree)@, ids: ids@, stack: final(stack)@ },
        ),
{
    let parent = match ids.resolve(id) {
        Ok(node) => node,
        Err(_) => {
            return Err(ApplyError::NotBound);
        },
    };
    if count > stack.len() {
        return Err(ApplyError::StackUnderflow);
    }
    let staged = copy_staged(stack, count);
    if let Some(e) = find_append_error(tree, parent, &staged) {
        return Err(ApplyError::Tree(e));
    }
    append_all(tree, parent, &staged);
    stack.truncate(stack.len() - count);
    Ok(())
}

fn assign_id(
    tree: &RetainedTree,
    ids: &mut IdentityMap,
    stack: &Vec<NodeId>,
    path: &Vec<u8>,
    id: ElementId,
) -> (r: Result<(), ApplyError>)
    requires
        old(ids).wf(),
    ensures
        final(ids).wf(),
        outcome(
            assign_id_step(Model { tree: tree@, ids: old(ids)@, stack: stack@ }, path@, id),
            Model { tree: tree@, ids: old(ids)@, stack: stack@ },
            r,
            Model { tree: tree@, ids: final(ids)@, stack: stack@ },
        ),
{
    let node = match walk_from(tree, stack, 0, path) {
        Ok(node) => node,
        Err(e) => {
            return Err(e);
        },
    };
    ids.bind(id, node);
    Ok(())
}

fn create(
    tree: &mut RetainedTree,
    ids: &mut IdentityMap,
    stack: &mut Vec<NodeId>,
    text: Option<String>,
    id: ElementId,
) -> (r: Result<(), ApplyError>)
    requires
        old(tree).wf(),
        old(ids).wf(),
    ensures
        final(tree).wf(),
        final(ids).wf(),
        outcome(
            create_step(
                Model { tree: old(tree)@, ids: old(ids)@, stack: old(stack)@ },
                text_view(text),
                id,
            ),
            Model { tree: old(tree)@, ids: old(ids)@, stack: old(stack)@ },
            r,
            Model { tree: final(tree)@, ids: final(ids)@, stack: final(stack)@ },
        ),
{
    let node = tree.spawn(Style::default(), text);
    ids.bind(id, node);
    stack.push(node);
    Ok(())
}

fn hydrate_text(
    tree: &mut RetainedTree,
    ids: &mut IdentityMap,
    stack: &Vec<NodeId>,
    path: &Vec<u8>,
    value: String,
    id: ElementId,
) -> (r: Result<(), ApplyError>)
    requires
        old(tree).wf(),
        old(ids).wf(),
    ensures
        final(tree).wf(),
        final(ids).wf(),
        outcome(
            hydrate_text_step(
                Model { tree: old(tree)@, ids: old(ids)@, stack: stack@ },
                path@,
                value@,
                id,
            ),
            Model { tree: old(tree)@, ids: old(ids)@, stack: stack@ },
            r,
            Model { tree: final(tree)@, ids: final(ids)@, stack: stack@ },
        ),
{
    let node = match walk_from(tree, stack, 0, path) {
        Ok(node) => node,
        Err(e) => {
            return Err(e);
        },
    };
    proof {
        old(tree)@.lemma_walk_lives(stack@[stack@.len() - 1], path@);
    }
    let done = tree.set_text(node, value);
    assert(done);
    ids.bind(id, node);
    Ok(())
}

fn load_template(
    templates: &TemplateCache,
    tree: &mut RetainedTree,
    ids: &mut IdentityMap,
    stack: &mut Vec<NodeId>,
    name: &str,
    index: usize,
    id: ElementId,
) -> (r: Result<(), ApplyError>)
    requires
        old(tree).wf(),
        old(ids).wf(),
    ensures
        final(tree).wf(),
        final(ids).wf(),
        outcome(
            load_template_step(
                templates@,
                Model { tree: old(tree)@, ids: old(ids)@, stack: old(stack)@ },
                name@,
                index as int,
                id,
            ),
            Model { tree: old(tree)@, ids: old(ids)@, stack: old(stack)@ },
            r,
            Model { tree: final(tree)@, ids: final(ids)@, stack: final(stack)@ },
        ),
{
    let node = match templates.instantiate(name, index, tree) {
        Ok(node) => node,
        Err(InstantiateError::UnknownTemplate) => {
            return Err(ApplyError::UnknownTemplate);
        },
        Err(InstantiateError::RootIndexOutOfBounds) => {
            return Err(ApplyError::RootIndexOutOfBounds);
        },
    };
    ids.bind(id, node);
    stack.push(node);
    Ok(())
}

fn replace_with(
    tree: &mut RetainedTree,
    ids: &mut IdentityMap,
    stack: &mut Vec<NodeId>,
    id: ElementId,
    count: usize,
) -> (r: Result<(), ApplyError>)
    requires
        old(tree).wf(),
        old(ids).wf(),
    ensures
        final(tree).wf(),
        final(ids).wf(),
        outcome(
            replace_with_step(
                Model { tree: old(tree)@, ids: old(ids)@, stack: old(stack)@ },
                id,
                count as int,
            ),
            Model { tree: old(tree)@, ids: old(ids)@, stack: old(stack)@ },
            r,
            Model { tree: final(tree)@, ids: final(ids)@, stack: final(stack)@ },
        ),
{
    let anchor = match ids.resolve(id) {
        Ok(node) => node,
        Err(_) => {
            return Err(ApplyError::NotBound);
        },
    };
    if count > stack.len() {
        return Err(ApplyError::StackUnderflow);
    }
    replace(tree, ids, stack, anchor, count)
}

fn replace_placeholder(
    tree: &mut RetainedTree,
    ids: &mut IdentityMap,
    stack: &mut Vec<NodeId>,
    path: &Vec<u8>,
    count: usize,
) -> (r: Result<(), ApplyError>)
    requires
        old(tree).wf(),
        old(ids).wf(),
    ensures
        final(tree).wf(),
        final(ids).wf(),
        outcome(
            replace_placeholder_step(
                Model { tree: old(tree)@, ids: old(ids)@, stack: old(stack)@ },
                path@,
                count as int,
            ),
            Model { tree: old(tree)@, ids: old(ids)@, stack: old(stack)@ },
            r,
            Model { tree: final(tree)@, ids: final(ids)@, stack: final(stack)@ },
        ),
{
    let anchor = match walk_from(tree, stack, count, path) {
        Ok(node) => node,
        Err(e) => {
            return Err(e);
        },
    };
    replace(tree, ids, stack, anchor, count)
}

fn set_attribute(
    tree: &mut RetainedTree,
    ids: &IdentityMap,
    name: &str,
    value: &AttributeValue,
    id: ElementId,
) -> (r: Result<(), ApplyError>)
    requires
        old(tree).wf(),
    ensures
        final(tree).wf(),
        outcome(
            set_attribute_step(
                Model { tree: old(tree)@, ids: ids@, stack: Seq::empty() },
                name@,
                *value,
                id,
            ),
            Model { tree: old(tree)@, ids: ids@, stack: Seq::empty() },
            r,
            Model { tree: final(tree)@, ids: ids@, stack: Seq::empty() },
        ),
{
    let text = match value {
        AttributeValue::Text(text) => text,
        _ => {
            return Err(ApplyError::UnsupportedAttributeValue);
        },
    };
    let node = match find_target(tree, ids, id) {
        Ok(node) => node,
        Err(e) => {
            return Err(e);
        },
    };
    let mut style = match tree.node(node) {
        Some(found) => found.style,
        None => Style::default(),
    };
    match set_style_attribute(name, text.as_str(), &mut style) {
        Ok(()) => {},
        Err(e) => {
            return Err(ApplyError::Style(e));
        },
    }
    let done = tree.set_style(node, style);
    assert(done);
    Ok(())
}

fn set_text(tree: &mut RetainedTree, ids: &IdentityMap, value: String, id: ElementId) -> (r: Result<
    (),
    ApplyError,
>)
    requires
        old(tree).wf(),
    ensures
        final(tree).wf(),
        outcome(
            set_text_step(Model { tree: old(tree)@, ids: ids@, stack: Seq::empty() }, value@, id),
            Model { tree: old(tree)@, ids: ids@, stack: Seq::empty() },
            r,
            Model { tree: final(tree)@, ids: ids@, stack: Seq::empty() },
        ),
{
    let node = match find_target(tree, ids, id) {
        Ok(node) => node,
        Err(e) => {
            return Err(e);
        },
    };
    let done = tree.set_text(node, value);
    assert(done);
    Ok(())
}

fn remove(tree: &mut RetainedTree, ids: &mut IdentityMap, id: ElementId) -> (r: Result<
    (),
    ApplyError,
>)
    requires
        old(tree).wf(),
        old(ids).wf(),
    ensures
        final(tree).wf(),
        final(ids).wf(),
        outcome(
            remove_step(Model { tree: old(tree)@, ids: old(ids)@, stack: Seq::empty() }, id),
            Model { tree: old(tree)@, ids: old(ids)@, stack: Seq::empty() },
            r,
            Model { tree: final(tree)@, ids: final(ids)@, stack: Seq::empty() },
        ),
{
    let node = match ids.resolve(id) {
        Ok(node) => node,
        Err(_) => {
            return Err(ApplyError::NotBound);
        },
    };
    let ghost t0 = tree@;
    let removed = tree.despawn_recursive(node);
    assert(removed@.to_set() =~= t0.subtree(node));
    purge(ids, &removed);
    ids.unbind(id);
    Ok(())
}

/// Applies one edit. A rejected edit changes nothing.
pub fn apply_edit(
    edit: &Mutation,
    templates: &TemplateCache,
    tree: &mut RetainedTree,
    ids: &mut IdentityMap,
    stack: &mut Vec<NodeId>,
) -> (r: Result<(), ApplyError>)
    requires
        old(tree).wf(),
        old(ids).wf(),
    ensures
        final(tree).wf(),
        final(ids).wf(),
        outcome(
            step(
                templates@,
                Model { tree: old(tree)@, ids: old(ids)@, stack: old(stack)@ },
                *edit,
            ),
            Model { tree: old(tree)@, ids: old(ids)@, stack: old(stack)@ },
            r,
            Model { tree: final(tree)@, ids: final(ids)@, stack: final(stack)@ },
        ),
{
    reveal(step);
    match edit {
        Mutation::AppendChildren { id, m } => append_children(tree, ids, stack, *id, *m),
        Mutation::AssignId { path, id } => assign_id(tree, ids, stack, path, *id),
        Mutation::CreatePlaceholder { id } => create(tree, ids, stack, None, *id),
        Mutation::CreateTextNode { value, id } => create(
            tree,
            ids,
            stack,
            Some(value.clone()),
            *id,
        ),
        Mutation::HydrateText { path, value, id } => hydrate_text(
            tree,
            ids,
            stack,
            path,
            value.clone(),
            *id,
        ),
        Mutation::LoadTemplate { name, index, id } => load_template(
            templates,
            tree,
            ids,
            stack,
            name.as_str(),
            *index,
            *id,
        ),
        Mutation::ReplaceWith { id, m } => replace_with(tree, ids, stack, *id, *m),
        Mutation::ReplacePlaceholder { path, m } => replace_placeholder(
            tree,
            ids,
            stack,
            path,
            *m,
        ),
        Mutation::InsertAfter { id, m } => insert(tree, ids, stack, *id, *m, true),
        Mutation::InsertBefore { id, m } => insert(tree, ids, stack, *id, *m, false),
        Mutation::SetAttribute { name, value, id } => set_attribute(
            tree,
            ids,
            name.as_str(),
            value,
            *id,
        ),
        Mutation::SetText { value, id } => set_text(tree, ids, value.clone(), *id),
        Mutation::NewEventListener { name, id: _ } => {
            if is_supported_event(name.as_str()) {
                Ok(())
            } else {
                Err(ApplyError::UnsupportedEvent)
            }
        },
        Mutation::RemoveEventListener { name, id: _ } => {
            if is_supported_event(name.as_str()) {
                Ok(())
            } else {
                Err(ApplyError::UnsupportedEvent)
            }
        },
        Mutation::Remove { id } => remove(tree, ids, *id),
        Mutation::PushRoot { id } => {
            match ids.resolve(*id) {
                Ok(node) => {
                    stack.push(node);
                    Ok(())
                },
                Err(_) => Err(ApplyError::NotBound),
            }
        },
    }
}

/// Moves the `count` nodes on top of the stack beside the node of `id`.
fn insert(
    tree: &mut RetainedTree,
    ids: &IdentityMap,
    stack: &mut Vec<NodeId>,
    id: ElementId,
    count: usize,
    after: bool,
) -> (r: Result<(), ApplyError>)
    requires
        old(tree).wf(),
    ensures
        final(tree).wf(),
        outcome(
            insert_step(
                Model { tree: old(tree)@, ids: ids@, stack: old(stack)@ },
                id,
                count as int,
                after,
            ),
            Model { tree: old(tree)@, ids: ids@, stack: old(stack)@ },
            r,
            Model { tree: final(tree)@, ids: ids@, stack: final(stack)@ },
        ),
{
    let anchor = match ids.resolve(id) {
        Ok(node) => node,
        Err(_) => {
            return Err(ApplyError::NotBound);
        },
    };
    if count > stack.len() {
        return Err(ApplyError::StackUnderflow);
    }
    let staged = copy_staged(stack, count);
    if let Some(e) = find_place_error(tree, anchor, &staged) {
        return Err(ApplyError::Tree(e));
    }
    place_all(tree, anchor, &staged, after);
    stack.truncate(stack.len() - count);
    Ok(())
}

/// Builds each of `templates` and stores it under its name, in order. The
/// first template that is rejected ends the work: those before it are
/// stored, and its index and the reason come back.
pub fn register_templates(templates: &Vec<Template>, cache: &mut TemplateCache) -> (r: Result<
    (),
    (usize, TemplateError),
>)
    ensures
        match r {
            Ok(()) => all_compile(templates@) && final(cache)@ == registered(
                old(cache)@,
                templates@,
            ),
            Err((index, error)) => index < templates@.len() && all_compile(
                templates@.take(index as int),
            ) && compiled_all(templates@[index as int].roots@) == Err::<
                Seq<Blueprint>,
                TemplateError,
            >(error) && final(cache)@ == registered(old(cache)@, templates@.take(index as int)),
        },
{
    let mut i: usize = 0;
    assert(templates@.take(0) =~= Seq::<Template>::empty());
    while i < templates.len()
        invariant
            i <= templates@.len(),
            all_compile(templates@.take(i as int)),
            cache@ == registered(old(cache)@, templates@.take(i as int)),
        decreases templates@.len() - i,
    {
        let built = match BevyTemplate::from_dioxus(&templates[i]) {
            Ok(built) => built,
            Err(e) => {
                return Err((i, e));
            },
        };
        cache.register_template(templates[i].name.clone(), built);
        proof {
            let next = templates@.take(i + 1);
            assert(next.drop_last() =~= templates@.take(i as int));
            assert(next.last() == templates@[i as int]);
            assert forall|j: int| 0 <= j < next.len() implies compiled_all(
                (#[trigger] next[j]).roots@,
            ) is Ok by {
                if j < i {
                    assert(templates@.take(i as int)[j] == next[j]);
                }
            }
        }
        i += 1;
    }
    assert(templates@.take(i as int) =~= templates@);
    Ok(())
}

/// What one UI root holds between batches, as contracts speak of it.
pub struct RootModel {
    pub tree: TreeModel,
    pub ids: Map<ElementId, NodeId>,
    pub templates: Map<Seq<char>, Seq<Blueprint>>,
}

/// Whether `r` and the state `after` are what the batch `mutations` makes of
/// the state `before` of the UI root with the root node `root`.
///
/// On success every template is registered and every edit applied, in
/// order. A rejected template leaves those before it registered and the
/// tree and the pairs untouched. A rejected edit leaves every template
/// registered and the edits before it applied; the rejected edit itself
/// changed nothing.
pub open spec fn batch_outcome(
    mutations: Mutations,
    root: NodeId,
    before: RootModel,
    r: Result<(), Rejected>,
    after: RootModel,
) -> bool {
    match r {
        Ok(()) => {
            &&& all_compile(mutations.templates@)
            &&& after.templates == registered(before.templates, mutations.templates@)
            &&& all_applied(
                after.templates,
                mounted(before.tree, before.ids, root),
                mutations.edits@,
            ) matches Some(model)
            &&& model.tree == after.tree
            &&& model.ids == after.ids
        },
        Err(Rejected::Template { index, error }) => {
            &&& index < mutations.templates@.len()
            &&& all_compile(mutations.templates@.take(index as int))
            &&& compiled_all(mutations.templates@[index as int].roots@) == Err::<
                Seq<Blueprint>,
                TemplateError,
            >(error)
            &&& after.templates == registered(
                before.templates,
                mutations.templates@.take(index as int),
            )
            &&& after.tree == before.tree
            &&& after.ids == before.ids
        },
        Err(Rejected::Edit { index, error }) => {
            &&& all_compile(mutations.templates@)
            &&& after.templates == registered(before.templates, mutations.templates@)
            &&& index < mutations.edits@.len()
            &&& all_applied(
                after.templates,
                mounted(before.tree, before.ids, root),
                mutations.edits@.take(index as int),
            ) matches Some(model)
            &&& model.tree == after.tree
            &&& model.ids == after.ids
            &&& step(after.templates, model, mutations.edits@[index as int]) == Err::<
                Model,
                ApplyError,
            >(error)
        },
    }
}

/// Applies one batch to a UI root: registers its templates, binds handle 0
/// to `root`, stages `root`, and applies the edits in order. The first
/// rejection ends the batch; what was done before it stays done.
///
/// No handle is left hanging: where the root and every bound node live
/// before a batch that gets as far as its edits, every bound node lives
/// after it.
pub fn apply_mutations(
    mutations: Mutations,
    ids: &mut IdentityMap,
    templates: &mut TemplateCache,
    root: NodeId,
    tree: &mut RetainedTree,
) -> (r: Result<(), Rejected>)
    requires
        old(ids).wf(),
        old(tree).wf(),
    ensures
        final(ids).wf(),
        final(tree).wf(),
        batch_outcome(
            mutations,
            root,
            RootModel { tree: old(tree)@, ids: old(ids)@, templates: old(templates)@ },
            r,
            RootModel { tree: final(tree)@, ids: final(ids)@, templates: final(templates)@ },
        ),
        !(r matches Err(Rejected::Template { .. })) && mounted(
            old(tree)@,
            old(ids)@,
            root,
        ).consistent() ==> consistent(final(tree)@, final(ids)@),
{
    match register_templates(&mutations.templates, templates) {
        Ok(()) => {},
        Err((index, error)) => {
            return Err(Rejected::Template { index, error });
        },
    }
    ids.bind(ElementId(0), root);
    let mut stack: Vec<NodeId> = Vec::new();
    stack.push(root);
    let ghost start = mounted(old(tree)@, old(ids)@, root);
    assert(stack@ =~= seq![root]);
    assert(mutations.edits@.take(0) =~= Seq::<Mutation>::empty());
    let mut i: usize = 0;
    while i < mutations.edits.len()
        invariant
            i <= mutations.edits@.len(),
            ids.wf(),
            tree.wf(),
            start == mounted(old(tree)@, old(ids)@, root),
            all_compile(mutations.templates@),
            templates@ == registered(old(templates)@, mutations.templates@),
            all_applied(templates@, start, mutations.edits@.take(i as int)) == Some(
                Model { tree: tree@, ids: ids@, stack: stack@ },
            ),
            start.consistent() ==> consistent(tree@, ids@),
        decreases mutations.edits@.len() - i,
    {
        let ghost before = Model { tree: tree@, ids: ids@, stack: stack@ };
        proof {
            let next = mutations.edits@.take(i + 1);
            assert(next.drop_last() =~= mutations.edits@.take(i as int));
            assert(next.last() == mutations.edits@[i as int]);
            if start.consistent() && step(templates@, before, mutations.edits@[i as int]) is Ok {
                lemma_step_consistent(templates@, before, mutations.edits@[i as int]);
            }
        }
        match apply_edit(&mutations.edits[i], templates, tree, ids, &mut stack) {
            Ok(()) => {},
            Err(error) => {
                assert((Model { tree: tree@, ids: ids@, stack: stack@ }) == before);
                return Err(Rejected::Edit { index: i, error });
            },
        }
        i += 1;
    }
    assert(mutations.edits@.take(i as int) =~= mutations.edits@);
    Ok(())
}

/// Everything that belongs to one UI root: its identity map, its template
/// cache, its retained tree and the root node of that tree. Nothing of it is
/// shared between roots.
pub struct UiRoot {
    pub ids: IdentityMap,
    pub templates: TemplateCache,
    pub tree: RetainedTree,
    pub root: NodeId,
}

impl UiRoot {
    pub open spec fn wf(&self) -> bool {
        self.ids.wf() && self.tree.wf()
    }

    pub open spec fn model(&self) -> RootModel {
        RootModel { tree: self.tree@, ids: self.ids@, templates: self.templates@ }
    }

    /// A UI root with no template, no pair, and a tree that holds the root
    /// node alone: an empty container without style.
    pub fn new() -> (ui: UiRoot)
        ensures
            ui.wf(),
            ui.ids@ == Map::<ElementId, NodeId>::empty(),
            ui.templates@ == Map::<Seq<char>, Seq<Blueprint>>::empty(),
            ui.root == NodeId(0),
            ui.tree@.next == 1,
            ui.tree@.nodes == Map::<NodeId, NodeView>::empty().insert(
                ui.root,
                NodeView {
                    style: Style::initial(),
                    text: None,
                    children: Seq::empty(),
                    parent: None,
                },
            ),
    {
        let mut tree = RetainedTree::new();
        let root = tree.spawn(Style::default(), None);
        UiRoot { ids: IdentityMap::new(), templates: TemplateCache::new(), tree, root }
    }

    /// Applies one batch to this UI root.
    pub fn apply(&mut self, mutations: Mutations) -> (r: Result<(), Rejected>)
        requires
            old(self).wf(),
        ensures
            final(self).wf(),
            final(self).root == old(self).root,
            batch_outcome(mutations, old(self).root, old(self).model(), r, final(self).model()),
            !(r matches Err(Rejected::Template { .. })) && mounted(
                old(self).tree@,
                old(self).ids@,
                old(self).root,
            ).consistent() ==> consistent(final(self).tree@, final(self).ids@),
    {
        apply_mutations(mutations, &mut self.ids, &mut self.templates, self.root, &mut self.tree)
    }
}

} // verus!
