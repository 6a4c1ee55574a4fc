//! The document tree: an `ego_tree::Tree` of [`Node`] payloads, seen by the
//! proofs through an abstract map from node ids to node records.

use vstd::prelude::*;
use crate::node::Node;
use crate::element_ref::{element_ids, ElementRef};
use ego_tree::{NodeId, Tree};

verus! {

#[verifier::external_type_specification]
#[verifier::external_body]
#[verifier::reject_recursive_types(T)]
pub struct ExTree<T>(Tree<T>);

#[verifier::external_type_specification]
#[verifier::external_body]
pub struct ExNodeId(NodeId);

/// What the proofs know of one node of a tree.
pub struct NodeRecord {
    pub value: Node,
    pub parent: Option<NodeId>,
    pub children: Seq<NodeId>,
}

/// One step of a depth-first walk: entering or leaving a node.
#[derive(Clone, Copy)]
pub enum Edge {
    Open(NodeId),
    Close(NodeId),
}

/// The nodes that a tree holds, by id.
pub uninterp spec fn tree_nodes(t: Tree<Node>) -> Map<NodeId, NodeRecord>;

/// The depth-first open/close walk over the subtree under `id`: open it,
/// walk each child in order, close it. `fuel` bounds the depth followed; any
/// value above the subtree's height gives the whole walk.
pub open spec fn walk_of(nodes: Map<NodeId, NodeRecord>, id: NodeId, fuel: nat) -> Seq<Edge>
    decreases fuel, 0nat,
{
    if fuel == 0 {
        Seq::empty()
    } else {
        seq![Edge::Open(id)] + walk_children(nodes, nodes[id].children, (fuel - 1) as nat) + seq![
            Edge::Close(id),
        ]
    }
}

/// The walks of the nodes `cs`, one after another.
pub open spec fn walk_children(nodes: Map<NodeId, NodeRecord>, cs: Seq<NodeId>, fuel: nat) -> Seq<Edge>
    decreases fuel, cs.len(),
{
    if cs.len() == 0 {
        Seq::empty()
    } else {
        walk_children(nodes, cs.drop_last(), fuel) + walk_of(nodes, cs.last(), fuel)
    }
}

/// The whole walk under `id`: a tree's height is below its number of nodes.
pub open spec fn full_walk(nodes: Map<NodeId, NodeRecord>, id: NodeId) -> Seq<Edge> {
    walk_of(nodes, id, nodes.len())
}

/// The node an edge refers to.
pub open spec fn edge_node(e: Edge) -> NodeId {
    match e {
        Edge::Open(n) => n,
        Edge::Close(n) => n,
    }
}

/// Elements opened minus elements closed by a sequence of edges.
pub open spec fn element_depth(nodes: Map<NodeId, NodeRecord>, edges: Seq<Edge>) -> int
    decreases edges.len(),
{
    if edges.len() == 0 {
        0
    } else {
        element_depth(nodes, edges.drop_last()) + edge_depth(nodes, edges.last())
    }
}

/// 1 for opening an element, -1 for closing one, 0 otherwise.
pub open spec fn edge_depth(nodes: Map<NodeId, NodeRecord>, e: Edge) -> int {
    match e {
        Edge::Open(n) => if nodes[n].value is Element { 1int } else { 0int },
        Edge::Close(n) => if nodes[n].value is Element { -1int } else { 0int },
    }
}

/// Relies on `ego_tree::Tree::new`: a tree that holds only a root node.
#[verifier::external_body]
fn new_tree(root: Node) -> (r: (Tree<Node>, NodeId))
    ensures
        tree_nodes(r.0).dom() == set![r.1],
        tree_nodes(r.0)[r.1] == (NodeRecord { value: root, parent: None, children: Seq::empty() }),
{
    let t = Tree::new(root);
    let id = t.root().id();
    (t, id)
}

/// Relies on `ego_tree::NodeMut::append`: a fresh node becomes the last child of `parent`.
#[verifier::external_body]
fn append_child(t: &mut Tree<Node>, parent: NodeId, value: Node) -> (r: NodeId)
    requires
        tree_nodes(*old(t)).contains_key(parent),
    ensures
        !tree_nodes(*old(t)).contains_key(r),
        tree_nodes(*final(t)) == tree_nodes(*old(t)).insert(
            parent,
            (NodeRecord {
                value: tree_nodes(*old(t))[parent].value,
                parent: tree_nodes(*old(t))[parent].parent,
                children: tree_nodes(*old(t))[parent].children.push(r),
            }),
        ).insert(r, (NodeRecord { value: value, parent: Some(parent), children: Seq::empty() })),
{
    t.get_mut(parent).unwrap().append(value).id()
}

/// Relies on `ego_tree::NodeRef::value`: the payload stored at a node.
#[verifier::external_body]
fn node_value<'a>(t: &'a Tree<Node>, id: NodeId) -> (r: &'a Node)
    requires
        tree_nodes(*t).contains_key(id),
    ensures
        *r == tree_nodes(*t)[id].value,
{
    t.get(id).unwrap().value()
}

/// Relies on `ego_tree::NodeRef::parent`: the id of a node's parent, which is in the tree.
#[verifier::external_body]
fn node_parent(t: &Tree<Node>, id: NodeId) -> (r: Option<NodeId>)
    requires
        tree_nodes(*t).contains_key(id),
    ensures
        r == tree_nodes(*t)[id].parent,
        r matches Some(p) ==> tree_nodes(*t).contains_key(p),
{
    t.get(id).unwrap().parent().map(|p| p.id())
}

/// Relies on `ego_tree::NodeRef::children`: a node's children in order, all
/// in the tree, none of them the node itself.
#[verifier::external_body]
fn node_children(t: &Tree<Node>, id: NodeId) -> (r: Vec<NodeId>)
    requires
        tree_nodes(*t).contains_key(id),
    ensures
        r@ == tree_nodes(*t)[id].children,
        forall|i: int| 0 <= i < r@.len() ==> tree_nodes(*t).contains_key(#[trigger] r@[i]),
        forall|i: int| 0 <= i < r@.len() ==> #[trigger] r@[i] != id,
{
    t.get(id).unwrap().children().map(|c| c.id()).collect()
}

/// Relies on `ego_tree::NodeRef::traverse` (iter.rs, `Traverse::next`): it
/// opens a node, then walks its first child onward through next siblings,
/// then closes it, and stops after closing the node it started at. Trees here
/// are only grown by appending fresh nodes, so they have no cycles and the
/// walk is the pre-order one of `full_walk`. It opens the node first,
/// closes it last, never opens it again in between, and meets only nodes of
/// the tree; each node is closed after it is opened, so no prefix of the walk,
/// nor of the walk inside the first node, closes more elements than it opens.
#[verifier::external_body]
fn traverse(t: &Tree<Node>, id: NodeId) -> (r: Vec<Edge>)
    requires
        tree_nodes(*t).contains_key(id),
    ensures
        r@ == full_walk(tree_nodes(*t), id),
        r@.len() >= 2,
        r@[0] == Edge::Open(id),
        r@.last() == Edge::Close(id),
        forall|i: int| 0 < i < r@.len() ==> #[trigger] r@[i] != Edge::Open(id),
        forall|i: int| 0 <= i < r@.len() ==> tree_nodes(*t).contains_key(#[trigger] edge_node(r@[i])),
        forall|k: int| 0 <= k <= r@.len() ==> element_depth(tree_nodes(*t), #[trigger] r@.subrange(0, k)) >= 0,
        forall|k: int| 1 <= k < r@.len() ==> element_depth(tree_nodes(*t), #[trigger] r@.subrange(1, k)) >= 0,
{
    t.get(id).unwrap().traverse().map(|e| match e {
        ego_tree::iter::Edge::Open(n) => Edge::Open(n.id()),
        ego_tree::iter::Edge::Close(n) => Edge::Close(n.id()),
    }).collect()
}

/// Relies on the derived `PartialEq` of `ego_tree::NodeId`.
#[verifier::external_body]
pub(crate) fn same_node(a: NodeId, b: NodeId) -> (r: bool)
    ensures
        r == (a == b),
{
    a == b
}

/// A parsed document: a tree of nodes with a root.
pub struct Html {
    tree: Tree<Node>,
    root: NodeId,
}

impl Html {
    /// The nodes of the document, by id.
    pub closed spec fn nodes(&self) -> Map<NodeId, NodeRecord> {
        tree_nodes(self.tree)
    }

    /// The document's root node.
    pub closed spec fn root_id(&self) -> NodeId {
        self.root
    }

    /// The walk over the subtree under `id`.
    pub open spec fn walk(&self, id: NodeId) -> Seq<Edge> {
        full_walk(self.nodes(), id)
    }

    /// The root is a node without a parent, and every child of a node is a
    /// node of the document whose parent is that node.
    pub open spec fn wf(&self) -> bool {
        &&& self.nodes().contains_key(self.root_id())
        &&& self.nodes()[self.root_id()].parent is None
        &&& forall|id: NodeId, i: int|
            #![trigger self.nodes()[id].children[i]]
            self.nodes().contains_key(id) && 0 <= i < self.nodes()[id].children.len() ==> {
                &&& self.nodes().contains_key(self.nodes()[id].children[i])
                &&& self.nodes()[self.nodes()[id].children[i]].parent == Some(id)
            }
    }

    /// A document holding only a root node with the given payload.
    pub fn new(root: Node) -> (r: Html)
        ensures
            r.wf(),
            r.nodes().dom() == set![r.root_id()],
            r.nodes()[r.root_id()] == (NodeRecord { value: root, parent: None, children: Seq::empty() }),
    {
        let (tree, id) = new_tree(root);
        Html { tree, root: id }
    }

    /// The id of the root node.
    pub fn root(&self) -> (r: NodeId)
        ensures
            r == self.root_id(),
    {
        self.root
    }

    /// Appends a new node with payload `value` as the last child of `parent`.
    pub fn append(&mut self, parent: NodeId, value: Node) -> (r: NodeId)
        requires
            old(self).wf(),
            old(self).nodes().contains_key(parent),
        ensures
            final(self).wf(),
            final(self).root_id() == old(self).root_id(),
            !old(self).nodes().contains_key(r),
            final(self).nodes() == old(self).nodes().insert(
                parent,
                (NodeRecord {
                    value: old(self).nodes()[parent].value,
                    parent: old(self).nodes()[parent].parent,
                    children: old(self).nodes()[parent].children.push(r),
                }),
            ).insert(r, (NodeRecord { value: value, parent: Some(parent), children: Seq::empty() })),
    {
        let r = append_child(&mut self.tree, parent, value);
        proof {
            let o = old(self).nodes();
            let n = self.nodes();
            assert forall|id: NodeId, i: int|
                n.contains_key(id) && 0 <= i < n[id].children.len() implies {
                    &&& n.contains_key(n[id].children[i])
                    &&& n[n[id].children[i]].parent == Some(id)
                } by {
                if id == r {
                } else if id == parent {
                    if i < o[parent].children.len() {
                        assert(n[id].children[i] == o[parent].children[i]);
                    }
                } else {
                    assert(n[id].children[i] == o[id].children[i]);
                }
            }
        }
        r
    }

    /// The first child of the root that is an element.
    pub fn root_element(&self) -> (r: Option<ElementRef<'_>>)
        requires
            self.wf(),
        ensures
            match r {
                Some(e) => {
                    &&& element_ids(self.nodes(), self.nodes()[self.root_id()].children).len() > 0
                    &&& e.node() == element_ids(self.nodes(), self.nodes()[self.root_id()].children)[0]
                    &&& e.document() == *self
                },
                None => element_ids(self.nodes(), self.nodes()[self.root_id()].children).len() == 0,
            },
    {
        let children = self.children(self.root);
        let mut i: usize = 0;
        while i < children.len()
            invariant
                i <= children@.len(),
                self.wf(),
                children@ == self.nodes()[self.root_id()].children,
                forall|j: int| 0 <= j < children@.len() ==> self.nodes().contains_key(#[trigger] children@[j]),
                element_ids(self.nodes(), children@.subrange(0, i as int)).len() == 0,
            decreases children@.len() - i,
        {
            proof {
                assert(children@.subrange(0, i as int + 1).drop_last() =~= children@.subrange(0, i as int));
            }
            match ElementRef::wrap(self, children[i]) {
                Some(e) => {
                    proof {
                        crate::laws::lemma_element_ids_split(self.nodes(), children@.subrange(0, i as int + 1), children@.subrange(i as int + 1, children@.len() as int));
                        assert(children@.subrange(0, i as int + 1) + children@.subrange(i as int + 1, children@.len() as int) =~= children@);
                    }
                    return Some(e);
                },
                None => {},
            }
            i = i + 1;
        }
        proof {
            assert(children@.subrange(0, children@.len() as int) =~= children@);
        }
        None
    }

    /// The payload of a node.
    pub fn value(&self, id: NodeId) -> (r: &Node)
        requires
            self.nodes().contains_key(id),
        ensures
            *r == self.nodes()[id].value,
    {
        node_value(&self.tree, id)
    }

    /// The parent of a node, if it has one.
    pub fn parent(&self, id: NodeId) -> (r: Option<NodeId>)
        requires
            self.nodes().contains_key(id),
        ensures
            r == self.nodes()[id].parent,
            r matches Some(p) ==> self.nodes().contains_key(p),
    {
        node_parent(&self.tree, id)
    }

    /// The children of a node, in document order.
    pub fn children(&self, id: NodeId) -> (r: Vec<NodeId>)
        requires
            self.nodes().contains_key(id),
        ensures
            r@ == self.nodes()[id].children,
            forall|i: int| 0 <= i < r@.len() ==> self.nodes().contains_key(#[trigger] r@[i]),
            forall|i: int| 0 <= i < r@.len() ==> #[trigger] r@[i] != id,
    {
        node_children(&self.tree, id)
    }

    /// The depth-first open/close walk over the subtree under `id`.
    pub fn traverse(&self, id: NodeId) -> (r: Vec<Edge>)
        requires
            self.nodes().contains_key(id),
        ensures
            r@ == self.walk(id),
            r@.len() >= 2,
            r@[0] == Edge::Open(id),
            r@.last() == Edge::Close(id),
            forall|i: int| 0 < i < r@.len() ==> #[trigger] r@[i] != Edge::Open(id),
            forall|i: int| 0 <= i < r@.len() ==> self.nodes().contains_key(#[trigger] edge_node(r@[i])),
            forall|k: int| 0 <= k <= r@.len() ==> element_depth(self.nodes(), #[trigger] r@.subrange(0, k)) >= 0,
            forall|k: int| 1 <= k < r@.len() ==> element_depth(self.nodes(), #[trigger] r@.subrange(1, k)) >= 0,
    {
        traverse(&self.tree, id)
    }
}

} // verus!
