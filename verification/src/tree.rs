//! The retained tree: the store that owns every node with its payload, the
//! ordered list of its children and the back-reference to its parent.
use crate::identity::NodeId;
use crate::style::Style;
use vstd::prelude::*;

verus! {

/// What a node is, told by whether it carries text.
#[derive(Clone, Copy, Debug, PartialEq, Eq, Structural)]
pub enum NodeKind {
    Container,
    TextLeaf,
}

/// Why the tree refused a change.
#[derive(Clone, Copy, Debug, PartialEq, Eq, Structural)]
pub enum TreeError {
    /// A node that the change names is not in the tree.
    NoSuchNode,
    /// The node would become its own child.
    SelfParent,
    /// The node to attach still has a parent.
    AlreadyAttached,
    /// The position lies beyond the end of the list of children.
    IndexOutOfBounds,
    /// The node to insert beside has no parent.
    Detached,
    /// The node would be inserted beside itself.
    SelfSibling,
}

/// A node as the tree holds it.
pub struct RetainedNode {
    pub style: Style,
    pub text: Option<String>,
    pub children: Vec<NodeId>,
    pub parent: Option<NodeId>,
}

/// A node as contracts speak of it.
pub struct NodeView {
    pub style: Style,
    pub text: Option<Seq<char>>,
    pub children: Seq<NodeId>,
    pub parent: Option<NodeId>,
}

pub open spec fn text_view(text: Option<String>) -> Option<Seq<char>> {
    match text {
        Some(t) => Some(t@),
        None => None,
    }
}

impl View for RetainedNode {
    type V = NodeView;

    open spec fn view(&self) -> NodeView {
        NodeView {
            style: self.style,
            text: text_view(self.text),
            children: self.children@,
            parent: self.parent,
        }
    }
}

impl NodeView {
    pub open spec fn kind(self) -> NodeKind {
        if self.text is Some {
            NodeKind::TextLeaf
        } else {
            NodeKind::Container
        }
    }
}

impl RetainedNode {
    pub fn kind(&self) -> (kind: NodeKind)
        ensures
            kind == self@.kind(),
    {
        if self.text.is_some() {
            NodeKind::TextLeaf
        } else {
            NodeKind::Container
        }
    }
}

/// `s` without its element `c`.
pub open spec fn without(s: Seq<NodeId>, c: NodeId) -> Seq<NodeId> {
    if s.contains(c) {
        s.remove(s.index_of(c))
    } else {
        s
    }
}

/// The tree as contracts speak of it: the nodes that live, by identity, and
/// the number that the next node's identity will hold.
pub struct TreeModel {
    pub nodes: Map<NodeId, NodeView>,
    pub next: nat,
}

impl TreeModel {
    pub open spec fn contains(self, n: NodeId) -> bool {
        self.nodes.contains_key(n)
    }

    pub open spec fn children(self, n: NodeId) -> Seq<NodeId> {
        self.nodes[n].children
    }

    pub open spec fn parent(self, n: NodeId) -> Option<NodeId> {
        self.nodes[n].parent
    }

    /// The identity that the next node gets.
    pub open spec fn fresh(self) -> NodeId {
        NodeId(self.next as u64)
    }

    /// Parents and children agree: every child of a live node lives and
    /// names that node as its parent, every parent of a live node lives and
    /// lists that node once, and no identity of a live node is still to be
    /// given out.
    pub open spec fn wf(self) -> bool {
        &&& self.next <= u64::MAX
        &&& forall|n: NodeId| #[trigger]
            self.contains(n) ==> n.0 < self.next && self.children(n).no_duplicates() && (
            self.parent(n) matches Some(p) ==> self.contains(p) && self.children(p).contains(n))
        &&& forall|n: NodeId, i: int|
            self.contains(n) && 0 <= i < self.children(n).len() ==> self.contains(
                #[trigger] self.children(n)[i],
            ) && self.parent(self.children(n)[i]) == Some(n)
    }

    /// The tree with one more node, which has no parent and no children.
    pub open spec fn spawned(self, style: Style, text: Option<Seq<char>>) -> TreeModel {
        TreeModel {
            nodes: self.nodes.insert(
                self.fresh(),
                NodeView { style, text, children: Seq::empty(), parent: None },
            ),
            next: self.next + 1,
        }
    }

    /// The tree in which `c` has left its parent.
    pub open spec fn detached(self, c: NodeId) -> TreeModel {
        if self.contains(c) && self.parent(c) is Some {
            let p = self.parent(c)->0;
            let unlisted = self.nodes.insert(
                p,
                NodeView { children: without(self.children(p), c), ..self.nodes[p] },
            );
            TreeModel {
                nodes: unlisted.insert(c, NodeView { parent: None, ..unlisted[c] }),
                ..self
            }
        } else {
            self
        }
    }

    /// Why `child` cannot become the child of `parent` at `index`, if it
    /// cannot.
    pub open spec fn attach_error(self, parent: NodeId, index: int, child: NodeId) -> Option<
        TreeError,
    > {
        if !self.contains(parent) || !self.contains(child) {
            Some(TreeError::NoSuchNode)
        } else if parent == child {
            Some(TreeError::SelfParent)
        } else if self.parent(child) is Some {
            Some(TreeError::AlreadyAttached)
        } else if index > self.children(parent).len() {
            Some(TreeError::IndexOutOfBounds)
        } else {
            None
        }
    }

    /// The tree in which `child` is the child of `parent` at `index`.
    pub open spec fn attached(self, parent: NodeId, index: int, child: NodeId) -> TreeModel {
        let listed = self.nodes.insert(
            parent,
            NodeView { children: self.children(parent).insert(index, child), ..self.nodes[parent] },
        );
        TreeModel {
            nodes: listed.insert(child, NodeView { parent: Some(parent), ..listed[child] }),
            ..self
        }
    }

    /// The tree in which the node `n` has the text `text`.
    pub open spec fn with_text(self, n: NodeId, text: Seq<char>) -> TreeModel {
        TreeModel {
            nodes: self.nodes.insert(n, NodeView { text: Some(text), ..self.nodes[n] }),
            ..self
        }
    }

    /// The tree in which the node `n` has the style `style`.
    pub open spec fn with_style(self, n: NodeId, style: Style) -> TreeModel {
        TreeModel { nodes: self.nodes.insert(n, NodeView { style, ..self.nodes[n] }), ..self }
    }
}

proof fn lemma_without(s: Seq<NodeId>, c: NodeId)
    requires
        s.no_duplicates(),
        s.contains(c),
    ensures
        without(s, c).no_duplicates(),
        without(s, c).len() == s.len() - 1,
        !without(s, c).contains(c),
        forall|x: NodeId| x != c ==> (without(s, c).contains(x) <==> s.contains(x)),
        forall|i: int| 0 <= i < s.len() && s[i] == c ==> i == s.index_of(c),
{
    let k = s.index_of(c);
    let w = s.remove(k);
    s.remove_ensures(k);
    assert forall|x: NodeId| x != c implies (w.contains(x) <==> s.contains(x)) by {
        if s.contains(x) {
            let i = choose|i: int| 0 <= i < s.len() && s[i] == x;
            if i < k {
                assert(w[i] == x);
            } else {
                assert(w[i - 1] == x);
            }
        }
        if w.contains(x) {
            let i = choose|i: int| 0 <= i < w.len() && w[i] == x;
            if i < k {
                assert(s[i] == x);
            } else {
                assert(s[i + 1] == x);
            }
        }
    }
    if w.contains(c) {
        let i = choose|i: int| 0 <= i < w.len() && w[i] == c;
        if i < k {
            assert(s[i] == c);
        } else {
            assert(s[i + 1] == c);
        }
    }
    assert forall|i: int, j: int| 0 <= i < w.len() && 0 <= j < w.len() && i != j implies w[i]
        != w[j] by {
        let si = if i < k { i } else { i + 1 };
        let sj = if j < k { j } else { j + 1 };
        assert(w[i] == s[si] && w[j] == s[sj]);
    }
}

proof fn lemma_inserted(s: Seq<NodeId>, i: int, c: NodeId)
    requires
        s.no_duplicates(),
        !s.contains(c),
        0 <= i <= s.len(),
    ensures
        s.insert(i, c).no_duplicates(),
        s.insert(i, c).len() == s.len() + 1,
        s.insert(i, c).contains(c),
        forall|x: NodeId| s.contains(x) ==> s.insert(i, c).contains(x),
        forall|j: int|
            0 <= j < s.insert(i, c).len() ==> #[trigger] s.insert(i, c)[j] == c || s.contains(
                s.insert(i, c)[j],
            ),
{
    let w = s.insert(i, c);
    s.insert_ensures(i, c);
    assert(w[i] == c);
    assert forall|x: NodeId| s.contains(x) implies w.contains(x) by {
        let j = choose|j: int| 0 <= j < s.len() && s[j] == x;
        if j < i {
            assert(w[j] == x);
        } else {
            assert(w[j + 1] == x);
        }
    }
    assert forall|j: int| 0 <= j < w.len() implies #[trigger] w[j] == c || s.contains(w[j]) by {
        if j < i {
            assert(w[j] == s[j]);
        } else if j > i {
            assert(w[j] == s[j - 1]);
        }
    }
    assert forall|a: int, b: int| 0 <= a < w.len() && 0 <= b < w.len() && a != b implies w[a]
        != w[b] by {
        let sa = if a < i { a } else { a - 1 };
        let sb = if b < i { b } else { b - 1 };
        if a != i && b != i {
            assert(w[a] == s[sa] && w[b] == s[sb]);
        } else if a == i {
            assert(w[b] == s[sb]);
        } else {
            assert(w[a] == s[sa]);
        }
    }
}

/// The position of `c` in `v`.
fn position_in(v: &Vec<NodeId>, c: NodeId) -> (found: Option<usize>)
    ensures
        match found {
            Some(i) => i < v@.len() && v@[i as int] == c,
            None => !v@.contains(c),
        },
{
    let mut i: usize = 0;
    while i < v.len()
        invariant
            i <= v@.len(),
            forall|j: int| 0 <= j < i ==> v@[j] != c,
        decreases v@.len() - i,
    {
        if v[i] == c {
            return Some(i);
        }
        i += 1;
    }
    None
}

/// The retained tree. It owns its nodes; the links between them are
/// identities, not ownership. An identity is given out once and never again.
pub struct RetainedTree {
    slots: Vec<Option<RetainedNode>>,
}

impl View for RetainedTree {
    type V = TreeModel;

    closed spec fn view(&self) -> TreeModel {
        TreeModel {
            nodes: Map::new(
                |id: NodeId| id.0 < self.slots@.len() && self.slots@[id.0 as int] is Some,
                |id: NodeId| self.slots@[id.0 as int]->0@,
            ),
            next: self.slots@.len(),
        }
    }
}

impl RetainedTree {
    pub open spec fn wf(&self) -> bool {
        self@.wf()
    }

    /// A tree without nodes.
    pub fn new() -> (tree: RetainedTree)
        ensures
            tree.wf(),
            tree@.nodes == Map::<NodeId, NodeView>::empty(),
            tree@.next == 0,
    {
        let tree = RetainedTree { slots: Vec::new() };
        assert(tree@.nodes =~= Map::<NodeId, NodeView>::empty());
        tree
    }

    fn put(&mut self, i: usize, node: RetainedNode)
        requires
            i < old(self).slots@.len(),
        ensures
            final(self).slots@ == old(self).slots@.update(i as int, Some(node)),
    {
        self.slots[i] = Some(node);
    }

    fn take(&mut self, i: usize) -> (slot: Option<RetainedNode>)
        requires
            i < old(self).slots@.len(),
        ensures
            slot == old(self).slots@[i as int],
            final(self).slots@ == old(self).slots@.update(i as int, None),
    {
        self.slots.push(None);
        let slot = self.slots.swap_remove(i);
        assert(self.slots@ =~= old(self).slots@.update(i as int, None));
        slot
    }

    /// The slot of the live node `id`.
    fn slot_of(&self, id: NodeId) -> (i: usize)
        requires
            self@.contains(id),
        ensures
            i == id.0,
            i < self.slots@.len(),
            self.slots@[i as int] is Some,
    {
        let room = self.slots.len();
        assert(id.0 < room);
        id.0 as usize
    }

    /// The identity that the next node will get. Every node that lives, or
    /// ever lived, has a smaller one.
    pub fn next_id(&self) -> (id: NodeId)
        ensures
            id == self@.fresh(),
    {
        NodeId(self.slots.len() as u64)
    }

    /// Whether `id` names a live node.
    pub fn contains(&self, id: NodeId) -> (live: bool)
        ensures
            live == self@.contains(id),
    {
        id.0 < self.slots.len() as u64 && self.slots[id.0 as usize].is_some()
    }

    /// The node that `id` names.
    pub fn node(&self, id: NodeId) -> (found: Option<&RetainedNode>)
        ensures
            match found {
                Some(n) => self@.contains(id) && n@ == self@.nodes[id],
                None => !self@.contains(id),
            },
    {
        if id.0 < self.slots.len() as u64 {
            self.slots[id.0 as usize].as_ref()
        } else {
            None
        }
    }

    /// Adds a node without parent and children, and gives its identity.
    pub fn spawn(&mut self, style: Style, text: Option<String>) -> (id: NodeId)
        requires
            old(self).wf(),
        ensures
            final(self).wf(),
            id == old(self)@.fresh(),
            !old(self)@.contains(id),
            final(self)@ == old(self)@.spawned(style, text_view(text)),
    {
        let id = NodeId(self.slots.len() as u64);
        let node = RetainedNode { style, text, children: Vec::new(), parent: None };
        self.slots.push(Some(node));
        assert(self.slots@.len() == self.slots.len());
        assert(final(self)@.nodes =~= old(self)@.spawned(style, text_view(text)).nodes);
        assert(final(self)@.wf()) by {
            let t = final(self)@;
            let o = old(self)@;
            assert forall|n: NodeId, i: int|
                t.contains(n) && 0 <= i < t.children(n).len() implies t.contains(
                #[trigger] t.children(n)[i],
            ) && t.parent(t.children(n)[i]) == Some(n) by {
                assert(o.contains(n));
                assert(o.contains(o.children(n)[i]));
            }
            assert forall|n: NodeId| #[trigger] t.contains(n) implies n.0 < t.next && t.children(
                n,
            ).no_duplicates() && (t.parent(n) matches Some(p) ==> t.contains(p) && t.children(
                p,
            ).contains(n)) by {
                if n != id {
                    assert(o.contains(n));
                }
            }
        }
        id
    }

    /// Replaces the text of the node `id`. Tells whether the node is there.
    pub fn set_text(&mut self, id: NodeId, text: String) -> (done: bool)
        requires
            old(self).wf(),
        ensures
            final(self).wf(),
            done == old(self)@.contains(id),
            final(self)@ == (if done {
                old(self)@.with_text(id, text@)
            } else {
                old(self)@
            }),
    {
        if !self.contains(id) {
            return false;
        }
        let i = self.slot_of(id);
        match self.take(i) {
            Some(node) => {
                let RetainedNode { style, text: _, children, parent } = node;
                self.put(i, RetainedNode { style, text: Some(text), children, parent });
            },
            None => {},
        }
        proof {
            assert(final(self)@.nodes =~= old(self)@.with_text(id, text@).nodes);
            assert(final(self)@.nodes.dom() =~= old(self)@.nodes.dom());
            old(self)@.lemma_same_links(final(self)@);
        }
        true
    }

    /// Replaces the style of the node `id`. Tells whether the node is there.
    pub fn set_style(&mut self, id: NodeId, style: Style) -> (done: bool)
        requires
            old(self).wf(),
        ensures
            final(self).wf(),
            done == old(self)@.contains(id),
            final(self)@ == (if done {
                old(self)@.with_style(id, style)
            } else {
                old(self)@
            }),
    {
        if !self.contains(id) {
            return false;
        }
        let i = self.slot_of(id);
        match self.take(i) {
            Some(node) => {
                let RetainedNode { style: _, text, children, parent } = node;
                self.put(i, RetainedNode { style, text, children, parent });
            },
            None => {},
        }
        proof {
            assert(final(self)@.nodes =~= old(self)@.with_style(id, style).nodes);
            assert(final(self)@.nodes.dom() =~= old(self)@.nodes.dom());
            old(self)@.lemma_same_links(final(self)@);
        }
        true
    }

    /// The parent of `id` and the position of `id` among its children.
    pub fn position(&self, id: NodeId) -> (found: Option<(NodeId, usize)>)
        requires
            self.wf(),
        ensures
            match found {
                Some((p, i)) => self@.contains(id) && self@.parent(id) == Some(p) && i
                    < self@.children(p).len() && self@.children(p)[i as int] == id && i
                    == self@.children(p).index_of(id),
                None => !self@.contains(id) || self@.parent(id) is None,
            },
    {
        proof {
            if self@.contains(id) && self@.parent(id) is Some {
                lemma_without(self@.children(self@.parent(id)->0), id);
            }
        }
        let parent = match self.node(id) {
            Some(node) => match node.parent {
                Some(p) => p,
                None => {
                    return None;
                },
            },
            None => {
                return None;
            },
        };
        match self.node(parent) {
            Some(node) => match position_in(&node.children, id) {
                Some(i) => Some((parent, i)),
                None => None,
            },
            None => None,
        }
    }

    /// Follows `path` from `start`: each element is the position of the next
    /// node among the children of the one before it.
    pub fn walk(&self, start: NodeId, path: &Vec<u8>) -> (found: Option<NodeId>)
        ensures
            found == self@.walk(start, path@),
    {
        let mut at = start;
        let mut i: usize = 0;
        assert(path@.skip(0) =~= path@);
        while i < path.len()
            invariant
                i <= path@.len(),
                self@.walk(start, path@) == self@.walk(at, path@.skip(i as int)),
            decreases path@.len() - i,
        {
            assert(path@.skip(i as int).skip(1) =~= path@.skip(i + 1));
            match self.node(at) {
                Some(node) => {
                    let k = path[i] as usize;
                    if k < node.children.len() {
                        at = node.children[k];
                    } else {
                        return None;
                    }
                },
                None => {
                    return None;
                },
            }
            i += 1;
        }
        if self.contains(at) {
            Some(at)
        } else {
            None
        }
    }

    /// Takes `id` out of the list of its parent's children. A node without
    /// a parent, or one that is not there, changes nothing.
    pub fn detach(&mut self, id: NodeId)
        requires
            old(self).wf(),
        ensures
            final(self).wf(),
            final(self)@ == old(self)@.detached(id),
    {
        let (parent, k) = match self.position(id) {
            Some(found) => found,
            None => {
                return ;
            },
        };
        let ghost o = old(self)@;
        proof {
            lemma_without(o.children(parent), id);
            o.lemma_detached_wf(id);
        }
        let pi = self.slot_of(parent);
        match self.take(pi) {
            Some(node) => {
                let RetainedNode { style, text, mut children, parent: grandparent } = node;
                children.remove(k);
                self.put(pi, RetainedNode { style, text, children, parent: grandparent });
            },
            None => {},
        }
        let ci = self.slot_of(id);
        match self.take(ci) {
            Some(node) => {
                let RetainedNode { style, text, children, parent: _ } = node;
                self.put(ci, RetainedNode { style, text, children, parent: None });
            },
            None => {},
        }
        assert(final(self)@.nodes =~= o.detached(id).nodes);
    }

    /// Makes `child`, which has no parent, the child of `parent` at
    /// `index`. A refused change leaves the tree as it was.
    pub fn attach(&mut self, parent: NodeId, index: usize, child: NodeId) -> (r: Result<
        (),
        TreeError,
    >)
        requires
            old(self).wf(),
        ensures
            final(self).wf(),
            match old(self)@.attach_error(parent, index as int, child) {
                Some(e) => r == Err::<(), TreeError>(e) && final(self)@ == old(self)@,
                None => r is Ok && final(self)@ == old(self)@.attached(
                    parent,
                    index as int,
                    child,
                ),
            },
    {
        let ghost o = old(self)@;
        let room = match self.node(parent) {
            Some(node) => node.children.len(),
            None => {
                return Err(TreeError::NoSuchNode);
            },
        };
        let attached = match self.node(child) {
            Some(node) => node.parent.is_some(),
            None => {
                return Err(TreeError::NoSuchNode);
            },
        };
        if parent == child {
            return Err(TreeError::SelfParent);
        }
        if attached {
            return Err(TreeError::AlreadyAttached);
        }
        if index > room {
            return Err(TreeError::IndexOutOfBounds);
        }
        proof {
            o.lemma_attached_wf(parent, index as int, child);
        }
        let pi = self.slot_of(parent);
        match self.take(pi) {
            Some(node) => {
                let RetainedNode { style, text, mut children, parent: grandparent } = node;
                children.insert(index, child);
                self.put(pi, RetainedNode { style, text, children, parent: grandparent });
            },
            None => {},
        }
        let ci = self.slot_of(child);
        match self.take(ci) {
            Some(node) => {
                let RetainedNode { style, text, children, parent: _ } = node;
                self.put(ci, RetainedNode { style, text, children, parent: Some(parent) });
            },
            None => {},
        }
        assert(final(self)@.nodes =~= o.attached(parent, index as int, child).nodes);
        Ok(())
    }

    /// Why `child` cannot become the last child of `parent`, if it cannot.
    pub fn add_child_error(&self, parent: NodeId, child: NodeId) -> (e: Option<TreeError>)
        ensures
            e == self@.add_child_error(parent, child),
    {
        if !self.contains(parent) || !self.contains(child) {
            Some(TreeError::NoSuchNode)
        } else if parent == child {
            Some(TreeError::SelfParent)
        } else {
            None
        }
    }

    /// Moves `child` to the end of the children of `parent`. A refused
    /// change leaves the tree as it was.
    pub fn add_child(&mut self, parent: NodeId, child: NodeId) -> (r: Result<(), TreeError>)
        requires
            old(self).wf(),
        ensures
            final(self).wf(),
            match old(self)@.add_child_error(parent, child) {
                Some(e) => r == Err::<(), TreeError>(e) && final(self)@ == old(self)@,
                None => r is Ok && final(self)@ == old(self)@.appended(parent, child),
            },
    {
        if let Some(e) = self.add_child_error(parent, child) {
            return Err(e);
        }
        self.detach(child);
        let room = match self.node(parent) {
            Some(node) => node.children.len(),
            None => 0,
        };
        self.attach(parent, room, child)
    }

    /// Why no node can be inserted beside `anchor`, if none can.
    pub fn anchor_error(&self, anchor: NodeId) -> (e: Option<TreeError>)
        ensures
            e == self@.anchor_error(anchor),
    {
        match self.node(anchor) {
            Some(node) => if node.parent.is_none() {
                Some(TreeError::Detached)
            } else {
                None
            },
            None => Some(TreeError::NoSuchNode),
        }
    }

    /// Why `child` cannot be inserted beside `anchor`, if it cannot.
    pub fn beside_error(&self, anchor: NodeId, child: NodeId) -> (e: Option<TreeError>)
        ensures
            e == self@.beside_error(anchor, child),
    {
        let parent = match self.node(anchor) {
            Some(node) => match node.parent {
                Some(p) => p,
                None => {
                    return Some(TreeError::Detached);
                },
            },
            None => {
                return Some(TreeError::NoSuchNode);
            },
        };
        if !self.contains(child) {
            Some(TreeError::NoSuchNode)
        } else if child == anchor {
            Some(TreeError::SelfSibling)
        } else if child == parent {
            Some(TreeError::SelfParent)
        } else {
            None
        }
    }

    /// Moves `child` to the place just before `anchor` among the children
    /// of the parent of `anchor`, or just after it. A refused change leaves
    /// the tree as it was.
    pub fn insert_beside(&mut self, anchor: NodeId, child: NodeId, after: bool) -> (r: Result<
        (),
        TreeError,
    >)
        requires
            old(self).wf(),
        ensures
            final(self).wf(),
            match old(self)@.beside_error(anchor, child) {
                Some(e) => r == Err::<(), TreeError>(e) && final(self)@ == old(self)@,
                None => r is Ok && final(self)@ == old(self)@.placed(anchor, child, after),
            },
    {
        if let Some(e) = self.beside_error(anchor, child) {
            return Err(e);
        }
        self.detach(child);
        match self.position(anchor) {
            Some((parent, k)) => {
                let room = match self.node(parent) {
                    Some(node) => node.children.len(),
                    None => 0,
                };
                let at: usize = if after && k < room {
                    k + 1
                } else {
                    k
                };
                self.attach(parent, at, child)
            },
            None => Ok(()),
        }
    }

    /// Adds a container with the style `style` whose children are `kids`,
    /// in that order, and gives its identity.
    pub(crate) fn spawn_parent(&mut self, style: Style, kids: Vec<NodeId>) -> (id: NodeId)
        requires
            old(self).wf(),
            old(self)@.adoptable(kids@),
        ensures
            final(self).wf(),
            id == old(self)@.fresh(),
            !old(self)@.contains(id),
            final(self)@ == old(self)@.adopting(style, kids@),
    {
        let ghost o = old(self)@;
        let id = NodeId(self.slots.len() as u64);
        let mut j: usize = 0;
        while j < kids.len()
            invariant
                j <= kids@.len(),
                o.wf(),
                o.adoptable(kids@),
                o == old(self)@,
                id == o.fresh(),
                self.slots@.len() == o.next,
                self@.nodes.dom() == o.nodes.dom(),
                forall|n: NodeId| #[trigger]
                    o.contains(n) ==> self@.nodes[n] == (if kids@.take(j as int).contains(n) {
                        NodeView { parent: Some(id), ..o.nodes[n] }
                    } else {
                        o.nodes[n]
                    }),
            decreases kids@.len() - j,
        {
            let kid = kids[j];
            assert(o.contains(kids@[j as int]));
            assert(self@.contains(kid));
            let ci = self.slot_of(kid);
            let ghost before = self@;
            match self.take(ci) {
                Some(node) => {
                    let RetainedNode { style: s, text, children, parent: _ } = node;
                    self.put(ci, RetainedNode { style: s, text, children, parent: Some(id) });
                },
                None => {},
            }
            assert(self@.nodes.dom() =~= o.nodes.dom());
            assert forall|n: NodeId| #[trigger] o.contains(n) implies self@.nodes[n] == (if kids@.take(
                j + 1,
            ).contains(n) {
                NodeView { parent: Some(id), ..o.nodes[n] }
            } else {
                o.nodes[n]
            }) by {
                let now = kids@.take(j + 1);
                let then = kids@.take(j as int);
                assert(now[j as int] == kid);
                if then.contains(n) {
                    let i = choose|i: int| 0 <= i < then.len() && then[i] == n;
                    assert(now[i] == n);
                }
                if now.contains(n) && n != kid {
                    let i = choose|i: int| 0 <= i < now.len() && now[i] == n;
                    assert(then[i] == n);
                }
                assert(before.nodes[n] == (if then.contains(n) {
                    NodeView { parent: Some(id), ..o.nodes[n] }
                } else {
                    o.nodes[n]
                }));
            }
            j += 1;
        }
        assert(kids@.take(j as int) =~= kids@);
        let ghost mid = self@;
        let ghost family = kids@;
        self.slots.push(
            Some(RetainedNode { style, text: None, children: kids, parent: None }),
        );
        assert(self.slots@.len() == self.slots.len());
        proof {
            let a = o.adopting(style, family);
            assert forall|n: NodeId| final(self)@.contains(n) <==> a.contains(n) by {
                if n != id {
                    assert(final(self)@.contains(n) <==> mid.contains(n));
                    assert(mid.nodes.dom().contains(n) <==> o.nodes.dom().contains(n));
                }
            }
            assert forall|n: NodeId| final(self)@.contains(n) implies final(self)@.nodes[n]
                == a.nodes[n] by {
                if n != id {
                    assert(o.contains(n));
                    assert(final(self)@.nodes[n] == mid.nodes[n]);
                }
            }
            assert(final(self)@.nodes =~= a.nodes);
            o.lemma_adopting_wf(style, kids@);
        }
        id
    }

    /// Removes the node `id` and every node below it, and takes `id` out of
    /// its parent's children. Gives the identities that were removed.
    pub fn despawn_recursive(&mut self, id: NodeId) -> (removed: Vec<NodeId>)
        requires
            old(self).wf(),
        ensures
            final(self).wf(),
            final(self)@ == old(self)@.without_subtree(id),
            removed@.no_duplicates(),
            forall|n: NodeId| removed@.contains(n) <==> old(self)@.in_subtree(id, n),
    {
        let mut removed: Vec<NodeId> = Vec::new();
        let ghost o = old(self)@;
        if !self.contains(id) {
            proof {
                assert forall|n: NodeId| !o.in_subtree(id, n) by {
                    if o.in_subtree(id, n) {
                        let k = choose|k: nat| o.ancestor(n, k) == Some(id);
                        o.lemma_ancestor_lives(n, k);
                    }
                }
                assert(o.nodes.remove_keys(o.subtree(id)) =~= o.nodes);
            }
            return removed;
        }
        self.detach(id);
        let ghost d = self@;
        proof {
            o.lemma_subtree_detached(id);
            assert(d.ancestor(id, 0) == Some(id));
        }
        let mut pending: Vec<NodeId> = Vec::new();
        pending.push(id);
        assert(pending@[0] == id);
        assert(self@.nodes =~= d.nodes.remove_keys(removed@.to_set()));
        while pending.len() > 0
            invariant
                d.wf(),
                d.contains(id),
                d.parent(id) is None,
                self@.next == d.next,
                self@.nodes == d.nodes.remove_keys(removed@.to_set()),
                removed@.no_duplicates(),
                pending@.no_duplicates(),
                forall|n: NodeId| #[trigger]
                    removed@.contains(n) ==> d.in_subtree(id, n) && d.contains(n),
                forall|n: NodeId| #[trigger]
                    pending@.contains(n) ==> d.in_subtree(id, n) && d.contains(n)
                        && !removed@.contains(n),
                forall|n: NodeId|
                    (removed@.contains(n) || pending@.contains(n)) && n != id ==> (
                    #[trigger] d.parent(n)) is Some && removed@.contains(d.parent(n)->0),
                forall|n: NodeId|
                    d.in_subtree(id, n) && !removed@.contains(n) ==> #[trigger] covered(
                        d,
                        pending@,
                        n,
                    ),
            decreases live_count(self.slots@),
        {
            let ghost pend0 = pending@;
            let ghost dead0 = removed@;
            let ghost slots0 = self.slots@;
            let w = pending.pop().unwrap();
            assert(pend0[pend0.len() - 1] == w);
            assert(pend0.contains(w));
            assert(self@.contains(w));
            let ghost before = self@;
            assert(before.nodes[w] == d.nodes[w]);
            let wi = self.slot_of(w);
            let taken = self.take(wi).unwrap();
            assert(taken@ == before.nodes[w]);
            let RetainedNode { style: _, text: _, children, parent: _ } = taken;
            let mut children = children;
            let ghost kids = children@;
            assert(kids == d.children(w));
            removed.push(w);
            pending.append(&mut children);
            proof {
                let pend1 = pend0.drop_last();
                assert(pending@ == pend1 + kids);
                lemma_live_count_cleared(slots0, wi as int);
                assert(removed@[dead0.len() as int] == w);
                assert forall|n: NodeId| removed@.contains(n) <==> (dead0.contains(n) || n
                    == w) by {
                    if dead0.contains(n) {
                        let i = choose|i: int| 0 <= i < dead0.len() && dead0[i] == n;
                        assert(removed@[i] == n);
                    }
                    if removed@.contains(n) && n != w {
                        let i = choose|i: int| 0 <= i < removed@.len() && removed@[i] == n;
                        assert(dead0[i] == n);
                    }
                }
                assert forall|n: NodeId| self@.contains(n) <==> (before.contains(n) && n
                    != w) by {}
                assert forall|n: NodeId| self@.contains(n) implies self@.nodes[n]
                    == before.nodes[n] by {}
                assert(removed@.to_set() =~= dead0.to_set().insert(w)) by {
                    assert forall|n: NodeId|
                        removed@.to_set().contains(n) <==> dead0.to_set().insert(w).contains(
                            n,
                        ) by {
                        assert(removed@.contains(n) <==> (dead0.contains(n) || n == w));
                    }
                }
                assert(before.nodes.remove(w) =~= d.nodes.remove_keys(
                    dead0.to_set().insert(w),
                ));
                assert(self@.nodes =~= before.nodes.remove(w));
                assert forall|n: NodeId| pending@.contains(n) <==> ((pend0.contains(n) && n != w)
                    || kids.contains(n)) by {
                    if pend0.contains(n) && n != w {
                        let i = choose|i: int| 0 <= i < pend0.len() && pend0[i] == n;
                        assert(pending@[i] == n);
                    }
                    if kids.contains(n) {
                        let i = choose|i: int| 0 <= i < kids.len() && kids[i] == n;
                        assert(pending@[pend1.len() + i] == n);
                    }
                    if pending@.contains(n) {
                        let i = choose|i: int| 0 <= i < pending@.len() && pending@[i] == n;
                        if i < pend1.len() {
                            assert(pend0[i] == n);
                        } else {
                            assert(kids[i - pend1.len()] == n);
                        }
                    }
                }
                // what a child of `w` is
                assert forall|i: int| 0 <= i < kids.len() implies d.contains(#[trigger] kids[i])
                    && d.parent(kids[i]) == Some(w) && kids[i] != id && !pend0.contains(kids[i])
                    && !dead0.contains(kids[i]) && kids[i] != w && d.in_subtree(id, kids[i]) by {
                    let c = kids[i];
                    assert(d.contains(d.children(w)[i]));
                    let k = choose|k: nat| d.ancestor(w, k) == Some(id);
                    assert(d.ancestor(c, k + 1) == Some(id));
                }
                assert forall|n: NodeId| #[trigger] removed@.contains(n) implies d.in_subtree(
                    id,
                    n,
                ) && d.contains(n) by {
                    if n != w {
                        assert(dead0.contains(n));
                    }
                }
                assert forall|n: NodeId| #[trigger] pending@.contains(n) implies d.in_subtree(
                    id,
                    n,
                ) && d.contains(n) && !removed@.contains(n) by {
                    if pend0.contains(n) && n != w {
                        assert(!dead0.contains(n));
                    } else {
                        let i = choose|i: int| 0 <= i < kids.len() && kids[i] == n;
                        assert(d.contains(kids[i]));
                    }
                }
                assert forall|n: NodeId|
                    (removed@.contains(n) || pending@.contains(n)) && n != id implies (
                #[trigger] d.parent(n)) is Some && removed@.contains(d.parent(n)->0) by {
                    if dead0.contains(n) || pend0.contains(n) {
                        assert(dead0.contains(d.parent(n)->0));
                    } else {
                        let i = choose|i: int| 0 <= i < kids.len() && kids[i] == n;
                        assert(d.parent(kids[i]) == Some(w));
                    }
                }
                assert(removed@.no_duplicates());
                assert(pending@.no_duplicates()) by {
                    assert forall|a: int, b: int|
                        0 <= a < pending@.len() && 0 <= b < pending@.len() && a
                            != b implies pending@[a] != pending@[b] by {
                        if a < pend1.len() && b < pend1.len() {
                            assert(pend0[a] != pend0[b]);
                        } else if a >= pend1.len() && b >= pend1.len() {
                            assert(kids[a - pend1.len()] != kids[b - pend1.len()]);
                        } else if a < pend1.len() {
                            assert(pend0.contains(pend0[a]));
                            assert(!pend0.contains(kids[b - pend1.len()]));
                        } else {
                            assert(pend0.contains(pend0[b]));
                            assert(!pend0.contains(kids[a - pend1.len()]));
                        }
                    }
                }
                assert forall|n: NodeId|
                    d.in_subtree(id, n) && !removed@.contains(n) implies #[trigger] covered(
                    d,
                    pending@,
                    n,
                ) by {
                    assert(covered(d, pend0, n));
                    let (j, k) = choose|j: int, k: nat|
                        0 <= j < pend0.len() && #[trigger] d.ancestor(n, k) == Some(
                            #[trigger] pend0[j],
                        );
                    if j < pend1.len() {
                        assert(pending@[j] == pend0[j]);
                    } else {
                        assert(pend0[j] == w);
                        assert(k > 0);
                        let c = d.lemma_ancestor_split(n, (k - 1) as nat);
                        assert(d.children(w).contains(c));
                        let i = choose|i: int| 0 <= i < kids.len() && kids[i] == c;
                        assert(pending@[pend1.len() + i] == c);
                        assert(d.ancestor(n, (k - 1) as nat) == Some(pending@[pend1.len() + i]));
                    }
                }
            }
        }
        proof {
            assert forall|n: NodeId| removed@.contains(n) <==> o.in_subtree(id, n) by {
                if d.in_subtree(id, n) && !removed@.contains(n) {
                    assert(covered(d, pending@, n));
                }
            }
            assert(removed@.to_set() =~= o.subtree(id));
            assert(removed@.to_set() =~= d.subtree(id));
            d.lemma_pruned_wf(id);
        }
        removed
    }
}

/// Whether some node of `pending` is `n` or stands above it.
pub open spec fn covered(d: TreeModel, pending: Seq<NodeId>, n: NodeId) -> bool {
    exists|j: int, k: nat|
        0 <= j < pending.len() && #[trigger] d.ancestor(n, k) == Some(#[trigger] pending[j])
}

/// The number of slots that hold a node.
spec fn live_count(slots: Seq<Option<RetainedNode>>) -> nat
    decreases slots.len(),
{
    if slots.len() == 0 {
        0
    } else {
        live_count(slots.drop_last()) + if slots.last() is Some {
            1nat
        } else {
            0nat
        }
    }
}

proof fn lemma_live_count_cleared(slots: Seq<Option<RetainedNode>>, i: int)
    requires
        0 <= i < slots.len(),
        slots[i] is Some,
    ensures
        live_count(slots.update(i, None)) < live_count(slots),
    decreases slots.len(),
{
    let cleared = slots.update(i, None);
    if i == slots.len() - 1 {
        assert(cleared.drop_last() =~= slots.drop_last());
    } else {
        assert(cleared.drop_last() =~= slots.drop_last().update(i, None));
        lemma_live_count_cleared(slots.drop_last(), i);
    }
}

impl TreeModel {
    /// Why `child` cannot become the last child of `parent`, if it cannot.
    pub open spec fn add_child_error(self, parent: NodeId, child: NodeId) -> Option<TreeError> {
        if !self.contains(parent) || !self.contains(child) {
            Some(TreeError::NoSuchNode)
        } else if parent == child {
            Some(TreeError::SelfParent)
        } else {
            None
        }
    }

    /// The tree in which `child` has become the last child of `parent`.
    pub open spec fn appended(self, parent: NodeId, child: NodeId) -> TreeModel {
        let d = self.detached(child);
        d.attached(parent, d.children(parent).len() as int, child)
    }

    /// Why no node can be inserted beside `anchor`, if none can.
    pub open spec fn anchor_error(self, anchor: NodeId) -> Option<TreeError> {
        if !self.contains(anchor) {
            Some(TreeError::NoSuchNode)
        } else if self.parent(anchor) is None {
            Some(TreeError::Detached)
        } else {
            None
        }
    }

    /// Why `child` cannot be inserted beside `anchor`, if it cannot.
    pub open spec fn beside_error(self, anchor: NodeId, child: NodeId) -> Option<TreeError> {
        if self.anchor_error(anchor) is Some {
            self.anchor_error(anchor)
        } else if !self.contains(child) {
            Some(TreeError::NoSuchNode)
        } else if child == anchor {
            Some(TreeError::SelfSibling)
        } else if self.parent(anchor) == Some(child) {
            Some(TreeError::SelfParent)
        } else {
            None
        }
    }

    /// The tree in which `child` has moved to the place just before
    /// `anchor`, or just after it.
    pub open spec fn placed(self, anchor: NodeId, child: NodeId, after: bool) -> TreeModel {
        let d = self.detached(child);
        let p = d.parent(anchor)->0;
        let k = d.children(p).index_of(anchor);
        d.attached(
            p,
            if after {
                k + 1
            } else {
                k
            },
            child,
        )
    }

    /// Moving a node to the end of a list of children keeps the nodes, and
    /// every parent but that of the node.
    pub proof fn lemma_appended_keeps(self, parent: NodeId, child: NodeId)
        requires
            self.wf(),
            self.add_child_error(parent, child) is None,
        ensures
            self.appended(parent, child).wf(),
            self.appended(parent, child).next == self.next,
            forall|n: NodeId| self.appended(parent, child).contains(n) <==> self.contains(n),
            forall|n: NodeId| n != child ==> self.appended(parent, child).parent(n) == self.parent(n),
    {
        let d = self.detached(child);
        self.lemma_detached_wf(child);
        d.lemma_attached_wf(parent, d.children(parent).len() as int, child);
    }

    /// Moving a node beside another keeps the nodes, and every parent but
    /// that of the node.
    pub proof fn lemma_placed_keeps(self, anchor: NodeId, child: NodeId, after: bool)
        requires
            self.wf(),
            self.beside_error(anchor, child) is None,
        ensures
            self.placed(anchor, child, after).wf(),
            self.placed(anchor, child, after).next == self.next,
            forall|n: NodeId| self.placed(anchor, child, after).contains(n) <==> self.contains(n),
            forall|n: NodeId|
                n != child ==> self.placed(anchor, child, after).parent(n) == self.parent(n),
    {
        let d = self.detached(child);
        self.lemma_detached_wf(child);
        let p = d.parent(anchor)->0;
        assert(d.contains(anchor));
        assert(d.children(p).contains(anchor));
        let k = d.children(p).index_of(anchor);
        d.lemma_attached_wf(p, if after { k + 1 } else { k }, child);
    }
}

impl TreeModel {
    /// Whether `kids` can become the children of a new node: each of them
    /// lives and has no parent, and none comes twice.
    pub open spec fn adoptable(self, kids: Seq<NodeId>) -> bool {
        &&& kids.no_duplicates()
        &&& forall|i: int|
            0 <= i < kids.len() ==> self.contains(#[trigger] kids[i]) && self.parent(kids[i])
                is None
    }

    /// The tree with one more container, whose children are `kids`.
    pub open spec fn adopting(self, style: Style, kids: Seq<NodeId>) -> TreeModel {
        let id = self.fresh();
        TreeModel {
            nodes: Map::new(
                |n: NodeId| self.contains(n) || n == id,
                |n: NodeId|
                    if n == id {
                        NodeView { style, text: None, children: kids, parent: None }
                    } else if kids.contains(n) {
                        NodeView { parent: Some(id), ..self.nodes[n] }
                    } else {
                        self.nodes[n]
                    },
            ),
            next: self.next + 1,
        }
    }

    /// The node `k` steps above `n`.
    pub open spec fn ancestor(self, n: NodeId, k: nat) -> Option<NodeId>
        decreases k,
    {
        if !self.contains(n) {
            None
        } else if k == 0 {
            Some(n)
        } else {
            match self.parent(n) {
                Some(p) => self.ancestor(p, (k - 1) as nat),
                None => None,
            }
        }
    }

    /// Whether `n` is `root` or stands below it.
    pub open spec fn in_subtree(self, root: NodeId, n: NodeId) -> bool {
        exists|k: nat| self.ancestor(n, k) == Some(root)
    }

    /// The node `root` and all that stand below it.
    pub open spec fn subtree(self, root: NodeId) -> Set<NodeId> {
        Set::new(|n: NodeId| self.in_subtree(root, n))
    }

    /// The tree in which `root` has left its parent and the nodes of its
    /// subtree are gone.
    pub open spec fn without_subtree(self, root: NodeId) -> TreeModel {
        let d = self.detached(root);
        TreeModel { nodes: d.nodes.remove_keys(self.subtree(root)), ..d }
    }

    /// A node that stands above another lives.
    pub proof fn lemma_ancestor_lives(self, n: NodeId, k: nat)
        requires
            self.ancestor(n, k) is Some,
        ensures
            self.contains(n),
            self.contains(self.ancestor(n, k)->0),
        decreases k,
    {
        if k > 0 {
            self.lemma_ancestor_lives(self.parent(n)->0, (k - 1) as nat);
        }
    }

    /// The node one step below the node `k + 1` steps above `n`.
    pub proof fn lemma_ancestor_split(self, n: NodeId, k: nat) -> (c: NodeId)
        requires
            self.ancestor(n, k + 1) is Some,
        ensures
            self.ancestor(n, k) == Some(c),
            self.contains(c),
            self.parent(c) == self.ancestor(n, k + 1),
        decreases k,
    {
        let p = self.parent(n)->0;
        if k == 0 {
            assert(self.ancestor(p, 0) is Some);
            n
        } else {
            assert(self.ancestor(n, k + 1) == self.ancestor(p, k));
            let c = self.lemma_ancestor_split(p, (k - 1) as nat);
            c
        }
    }

    proof fn lemma_up_detached(self, root: NodeId, n: NodeId, k: nat) -> (j: nat)
        requires
            self.wf(),
            self.ancestor(n, k) == Some(root),
        ensures
            self.detached(root).ancestor(n, j) == Some(root),
        decreases k,
    {
        let d = self.detached(root);
        self.lemma_ancestor_lives(n, k);
        if n == root {
            assert(d.ancestor(n, 0) == Some(root));
            0
        } else {
            let p = self.parent(n)->0;
            let j = self.lemma_up_detached(root, p, (k - 1) as nat);
            assert(d.contains(n) && d.parent(n) == Some(p));
            assert(d.ancestor(n, j + 1) == d.ancestor(p, j));
            j + 1
        }
    }

    proof fn lemma_down_detached(self, root: NodeId, n: NodeId, k: nat)
        requires
            self.wf(),
            self.detached(root).ancestor(n, k) == Some(root),
        ensures
            self.ancestor(n, k) == Some(root),
        decreases k,
    {
        let d = self.detached(root);
        d.lemma_ancestor_lives(n, k);
        assert(self.contains(n));
        if k > 0 {
            let p = d.parent(n)->0;
            assert(n != root);
            assert(self.parent(n) == Some(p));
            self.lemma_down_detached(root, p, (k - 1) as nat);
        }
    }

    /// Detaching a node does not change what stands below it.
    pub proof fn lemma_subtree_detached(self, root: NodeId)
        requires
            self.wf(),
        ensures
            forall|n: NodeId| self.in_subtree(root, n) <==> self.detached(root).in_subtree(root, n),
            self.subtree(root) == self.detached(root).subtree(root),
    {
        let d = self.detached(root);
        assert forall|n: NodeId| self.in_subtree(root, n) <==> d.in_subtree(root, n) by {
            if self.in_subtree(root, n) {
                let k = choose|k: nat| self.ancestor(n, k) == Some(root);
                let j = self.lemma_up_detached(root, n, k);
            }
            if d.in_subtree(root, n) {
                let k = choose|k: nat| d.ancestor(n, k) == Some(root);
                self.lemma_down_detached(root, n, k);
            }
        }
        assert(self.subtree(root) =~= d.subtree(root));
    }

    /// A well-formed tree stays well-formed when the subtree of a node
    /// without a parent goes.
    pub proof fn lemma_pruned_wf(self, root: NodeId)
        requires
            self.wf(),
            self.contains(root) ==> self.parent(root) is None,
        ensures
            (TreeModel { nodes: self.nodes.remove_keys(self.subtree(root)), ..self }).wf(),
    {
        let t = TreeModel { nodes: self.nodes.remove_keys(self.subtree(root)), ..self };
        assert forall|n: NodeId| #[trigger] t.contains(n) implies n.0 < t.next && t.children(
            n,
        ).no_duplicates() && (t.parent(n) matches Some(q) ==> t.contains(q) && t.children(
            q,
        ).contains(n)) by {
            assert(self.contains(n));
            if self.parent(n) is Some {
                let q = self.parent(n)->0;
                if self.in_subtree(root, q) {
                    let k = choose|k: nat| self.ancestor(q, k) == Some(root);
                    assert(self.ancestor(n, k + 1) == Some(root));
                }
            }
        }
        assert forall|n: NodeId, i: int|
            t.contains(n) && 0 <= i < t.children(n).len() implies t.contains(
            #[trigger] t.children(n)[i],
        ) && t.parent(t.children(n)[i]) == Some(n) by {
            assert(self.contains(n));
            let x = self.children(n)[i];
            assert(self.contains(x));
            if self.in_subtree(root, x) {
                let k = choose|k: nat| self.ancestor(x, k) == Some(root);
                if k > 0 {
                    assert(self.ancestor(x, k) == self.ancestor(n, (k - 1) as nat));
                }
            }
        }
    }

    /// A new container over nodes without parents keeps the tree
    /// well-formed.
    pub proof fn lemma_adopting_wf(self, style: Style, kids: Seq<NodeId>)
        requires
            self.wf(),
            self.adoptable(kids),
            self.next < u64::MAX,
        ensures
            self.adopting(style, kids).wf(),
    {
        let a = self.adopting(style, kids);
        let id = self.fresh();
        assert(!self.contains(id)) by {
            if self.contains(id) {
                assert(id.0 < self.next);
            }
        }
        assert forall|n: NodeId| #[trigger] a.contains(n) implies n.0 < a.next && a.children(
            n,
        ).no_duplicates() && (a.parent(n) matches Some(q) ==> a.contains(q) && a.children(
            q,
        ).contains(n)) by {
            if n != id {
                assert(self.contains(n));
                if !kids.contains(n) && self.parent(n) is Some {
                    assert(self.contains(self.parent(n)->0));
                }
            }
        }
        assert forall|n: NodeId, i: int|
            a.contains(n) && 0 <= i < a.children(n).len() implies a.contains(
            #[trigger] a.children(n)[i],
        ) && a.parent(a.children(n)[i]) == Some(n) by {
            if n != id {
                assert(self.contains(n));
                let x = self.children(n)[i];
                assert(self.contains(x));
                if kids.contains(x) {
                    let j = choose|j: int| 0 <= j < kids.len() && kids[j] == x;
                    assert(self.parent(kids[j]) is None);
                }
            } else {
                assert(kids.contains(kids[i]));
            }
        }
    }

    /// Where `path` leads from `start`, if every step stays within a list
    /// of children.
    pub open spec fn walk(self, start: NodeId, path: Seq<u8>) -> Option<NodeId>
        decreases path.len(),
    {
        if !self.contains(start) {
            None
        } else if path.len() == 0 {
            Some(start)
        } else if path[0] < self.children(start).len() {
            self.walk(self.children(start)[path[0] as int], path.skip(1))
        } else {
            None
        }
    }

    /// Where a path leads, a node lives.
    pub proof fn lemma_walk_lives(self, start: NodeId, path: Seq<u8>)
        ensures
            self.walk(start, path) matches Some(n) ==> self.contains(n),
        decreases path.len(),
    {
        if self.contains(start) && path.len() > 0 && path[0] < self.children(start).len() {
            self.lemma_walk_lives(self.children(start)[path[0] as int], path.skip(1));
        }
    }

    /// A tree with the same nodes and the same links between them is as
    /// well-formed as this one.
    pub proof fn lemma_same_links(self, other: TreeModel)
        requires
            self.wf(),
            other.next == self.next,
            other.nodes.dom() == self.nodes.dom(),
            forall|n: NodeId|
                self.contains(n) ==> other.children(n) == self.children(n) && other.parent(n)
                    == self.parent(n),
        ensures
            other.wf(),
    {
        assert forall|n: NodeId| #[trigger] other.contains(n) implies n.0 < other.next
            && other.children(n).no_duplicates() && (other.parent(n) matches Some(p)
            ==> other.contains(p) && other.children(p).contains(n)) by {
            assert(self.contains(n));
        }
        assert forall|n: NodeId, i: int|
            other.contains(n) && 0 <= i < other.children(n).len() implies other.contains(
            #[trigger] other.children(n)[i],
        ) && other.parent(other.children(n)[i]) == Some(n) by {
            assert(self.contains(n));
            assert(self.contains(self.children(n)[i]));
        }
    }

    /// Detaching a node keeps the tree well-formed.
    pub proof fn lemma_detached_wf(self, c: NodeId)
        requires
            self.wf(),
        ensures
            self.detached(c).wf(),
    {
        if self.contains(c) && self.parent(c) is Some {
            let p = self.parent(c)->0;
            let d = self.detached(c);
            assert(self.contains(c));
            lemma_without(self.children(p), c);
            assert forall|n: NodeId| #[trigger] d.contains(n) implies n.0 < d.next && d.children(
                n,
            ).no_duplicates() && (d.parent(n) matches Some(q) ==> d.contains(q) && d.children(
                q,
            ).contains(n)) by {
                assert(self.contains(n));
            }
            assert forall|n: NodeId, i: int|
                d.contains(n) && 0 <= i < d.children(n).len() implies d.contains(
                #[trigger] d.children(n)[i],
            ) && d.parent(d.children(n)[i]) == Some(n) by {
                assert(self.contains(n));
                let x = d.children(n)[i];
                if n == p {
                    assert(without(self.children(p), c).contains(x));
                    assert(self.children(p).contains(x));
                    let j = choose|j: int|
                        0 <= j < self.children(p).len() && self.children(p)[j] == x;
                    assert(self.contains(self.children(p)[j]));
                } else {
                    assert(self.contains(self.children(n)[i]));
                }
            }
        }
    }

    /// Attaching a node that has no parent keeps the tree well-formed.
    pub proof fn lemma_attached_wf(self, parent: NodeId, index: int, child: NodeId)
        requires
            self.wf(),
            self.attach_error(parent, index, child) is None,
            0 <= index,
        ensures
            self.attached(parent, index, child).wf(),
    {
        let a = self.attached(parent, index, child);
        let old_list = self.children(parent);
        assert(self.contains(parent) && self.contains(child));
        if old_list.contains(child) {
            let j = choose|j: int| 0 <= j < old_list.len() && old_list[j] == child;
            assert(self.contains(self.children(parent)[j]));
        }
        lemma_inserted(old_list, index, child);
        assert forall|n: NodeId| #[trigger] a.contains(n) implies n.0 < a.next && a.children(
            n,
        ).no_duplicates() && (a.parent(n) matches Some(q) ==> a.contains(q) && a.children(
            q,
        ).contains(n)) by {
            assert(self.contains(n));
        }
        assert forall|n: NodeId, i: int|
            a.contains(n) && 0 <= i < a.children(n).len() implies a.contains(
            #[trigger] a.children(n)[i],
        ) && a.parent(a.children(n)[i]) == Some(n) by {
            assert(self.contains(n));
            let x = a.children(n)[i];
            if n == parent {
                if x != child {
                    assert(old_list.contains(x));
                    let j = choose|j: int| 0 <= j < old_list.len() && old_list[j] == x;
                    assert(self.contains(self.children(parent)[j]));
                }
            } else {
                assert(self.contains(self.children(n)[i]));
            }
        }
    }
}

} // verus!
