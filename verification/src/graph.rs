//! An arena of nodes, and a forest of such arenas, where nodes refer to each
//! other by index.
use std::marker::PhantomData;
use vstd::prelude::*;

verus! {

/// The index of a graph in its forest.
pub struct GraphId<Node>(usize, PhantomData<Node>);

impl<T> Clone for GraphId<T> {
    fn clone(&self) -> (res: Self)
        ensures
            res == *self,
    {
        GraphId(self.0, PhantomData)
    }
}

impl<T> Copy for GraphId<T> {

}

impl<T> GraphId<T> {
    /// The position of the graph in its forest.
    pub closed spec fn index(self) -> nat {
        self.0 as nat
    }
}

/// The index of a node in a graph, and the graph it was issued by.
pub struct NodeId<Node>(usize, GraphId<Node>);

impl<T> Clone for NodeId<T> {
    fn clone(&self) -> (res: Self)
        ensures
            res == *self,
    {
        NodeId(self.0, self.1)
    }
}

impl<T> Copy for NodeId<T> {

}

impl<T> NodeId<T> {
    /// The position of the node in its graph.
    pub closed spec fn index(self) -> nat {
        self.0 as nat
    }

    /// The graph that issued this id.
    pub closed spec fn graph(self) -> GraphId<T> {
        self.1
    }
}

/// A node type whose nodes can be seen together with the graph they live in.
pub trait ToRef: Sized {
    type Ref<'a> where Self: 'a;

    /// What `to_ref` gives for this node in `graph`.
    spec fn ref_of<'a>(&self, graph: &'a Graph<Self>) -> Self::Ref<'a>;

    /// This node, seen together with `graph`.
    fn to_ref<'a>(&self, graph: &'a Graph<Self>) -> (res: Self::Ref<'a>)
        ensures
            res == self.ref_of(graph),
    ;
}

/// One graph: its id in the forest and its nodes, in the order they were added.
pub struct Graph<Node> {
    id: GraphId<Node>,
    nodes: Vec<Node>,
}

impl<Node> Graph<Node> {
    /// The id of this graph in its forest.
    pub closed spec fn graph_id(&self) -> GraphId<Node> {
        self.id
    }

    /// The nodes, in the order they were added.
    pub closed spec fn nodes(&self) -> Seq<Node> {
        self.nodes@
    }

    /// An empty graph with the id `id`.
    pub fn new(id: GraphId<Node>) -> (res: Self)
        ensures
            res.graph_id() == id,
            res.nodes() == Seq::<Node>::empty(),
    {
        Graph { id, nodes: Vec::new() }
    }

    /// Adds a node; its id is its position in this graph.
    pub fn add(&mut self, node: Node) -> (res: NodeId<Node>)
        ensures
            final(self).graph_id() == old(self).graph_id(),
            final(self).nodes() == old(self).nodes().push(node),
            res.index() == old(self).nodes().len(),
            res.graph() == old(self).graph_id(),
    {
        let id = NodeId(self.nodes.len(), self.id);
        self.nodes.push(node);
        id
    }

    /// The node `id`.
    pub fn get(&self, id: NodeId<Node>) -> (res: &Node)
        requires
            id.index() < self.nodes().len(),
        ensures
            *res == self.nodes()[id.index() as int],
    {
        &self.nodes[id.0]
    }

    /// The node `id`, seen together with this graph.
    pub fn get_ref(&self, id: NodeId<Node>) -> (res: Ref<'_, Node>)
        ensures
            *res.graph() == *self,
            res.node_id() == id,
    {
        Ref { graph: self, id }
    }

    /// The node `id`, to change in place.
    pub fn get_mut(&mut self, id: NodeId<Node>) -> (res: &mut Node)
        requires
            id.index() < old(self).nodes().len(),
        ensures
            *res == old(self).nodes()[id.index() as int],
            final(self).graph_id() == old(self).graph_id(),
            final(self).nodes() == old(self).nodes().update(id.index() as int, *final(res)),
    {
        &mut self.nodes[id.0]
    }
}

/// A node seen together with the graph it lives in.
pub struct Ref<'a, Node> {
    graph: &'a Graph<Node>,
    id: NodeId<Node>,
}

impl<'a, Node> Ref<'a, Node> {
    /// The graph.
    pub closed spec fn graph(&self) -> &'a Graph<Node> {
        self.graph
    }

    /// The id of the node.
    pub closed spec fn node_id(&self) -> NodeId<Node> {
        self.id
    }

    /// The node.
    pub fn get(&self) -> (res: &'a Node)
        requires
            self.node_id().index() < self.graph().nodes().len(),
        ensures
            *res == self.graph().nodes()[self.node_id().index() as int],
    {
        self.graph.get(self.id)
    }

    /// The node, seen together with the graph.
    pub fn get_ref(&self) -> (res: Node::Ref<'a>) where Node: ToRef
        requires
            self.node_id().index() < self.graph().nodes().len(),
        ensures
            res == self.graph().nodes()[self.node_id().index() as int].ref_of(self.graph()),
    {
        self.get().to_ref(self.graph)
    }
}

/// The graphs of a forest, by index.
pub struct GraphsInner<Node> {
    graphs: Vec<Graph<Node>>,
}

impl<Node> GraphsInner<Node> {
    /// The graphs, by index.
    pub closed spec fn graphs(&self) -> Seq<Graph<Node>> {
        self.graphs@
    }

    /// A forest without graphs.
    pub fn new() -> (res: Self)
        ensures
            res.graphs().len() == 0,
    {
        GraphsInner { graphs: Vec::new() }
    }

    /// Reserves the next index with an empty graph and hands out an empty graph
    /// with that index, to fill and give back with `update_graph`.
    pub fn new_graph(&mut self) -> (res: Graph<Node>)
        ensures
            final(self).graphs().len() == old(self).graphs().len() + 1,
            final(self).graphs().subrange(0, old(self).graphs().len() as int) == old(self).graphs(),
            final(self).graphs().last().graph_id() == res.graph_id(),
            final(self).graphs().last().nodes() == Seq::<Node>::empty(),
            res.graph_id().index() == old(self).graphs().len(),
            res.nodes() == Seq::<Node>::empty(),
    {
        let id = GraphId(self.graphs.len(), PhantomData);
        self.graphs.push(Graph::new(id));
        assert(self.graphs@.subrange(0, old(self).graphs@.len() as int) =~= old(self).graphs@);
        Graph::new(id)
    }

    /// Stores `graph` at the index it was issued with.
    pub fn update_graph(&mut self, graph: Graph<Node>)
        requires
            graph.graph_id().index() < old(self).graphs().len(),
        ensures
            final(self).graphs() == old(self).graphs().update(graph.graph_id().index() as int, graph),
    {
        let i = graph.id.0;
        self.graphs.set(i, graph);
    }
}

/// If one graph usually represents single tree, graphs are forest.
pub struct Graphs<Node> {
    inner: GraphsInner<Node>,
}

impl<Node> Graphs<Node> {
    /// The graphs, by index.
    pub closed spec fn graphs(&self) -> Seq<Graph<Node>> {
        self.inner.graphs()
    }

    /// A forest without graphs.
    pub fn new() -> (res: Self)
        ensures
            res.graphs().len() == 0,
    {
        Graphs { inner: GraphsInner::new() }
    }

    /// Reserves the next index and hands out an empty graph with that index.
    pub fn new_graph(&mut self) -> (res: Graph<Node>)
        ensures
            final(self).graphs().len() == old(self).graphs().len() + 1,
            final(self).graphs().subrange(0, old(self).graphs().len() as int) == old(self).graphs(),
            final(self).graphs().last().graph_id() == res.graph_id(),
            final(self).graphs().last().nodes() == Seq::<Node>::empty(),
            res.graph_id().index() == old(self).graphs().len(),
            res.nodes() == Seq::<Node>::empty(),
    {
        self.inner.new_graph()
    }

    /// Stores `graph` at the index it was issued with.
    pub fn update_graph(&mut self, graph: Graph<Node>)
        requires
            graph.graph_id().index() < old(self).graphs().len(),
        ensures
            final(self).graphs() == old(self).graphs().update(graph.graph_id().index() as int, graph),
    {
        self.inner.update_graph(graph)
    }
}

/// The id that `add` returns names the node just added, and every node added
/// before keeps its id.
pub proof fn law_get_after_add<Node>(before: Seq<Node>, after: Seq<Node>, node: Node, index: nat, earlier: nat)
    requires
        after == before.push(node),
        index == before.len(),
    ensures
        index < after.len(),
        after[index as int] == node,
        earlier < before.len() ==> earlier < after.len() && after[earlier as int] == before[earlier as int],
{
}

} // verus!
