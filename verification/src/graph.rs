//! A directed graph stored as a list of node weights and a list of edges,
//! indexed by position. Edges leaving or entering a node are listed most
//! recently added first, as `petgraph` lists them.
use vstd::prelude::*;

verus! {

/// The position of a node in the graph.
pub type NodeId = usize;

/// The position of an edge in the graph.
pub type EdgeId = usize;

/// An edge: where it starts, where it ends, and its weight.
#[derive(Debug, Clone)]
pub struct EdgeRecord<E> {
    pub source: NodeId,
    pub target: NodeId,
    pub weight: E,
}

/// Which edges of a node to list.
#[derive(Debug, Clone, Copy, PartialEq, Eq, Structural)]
pub enum Direction {
    /// The edges that start at the node.
    Outgoing,
    /// The edges that end at the node.
    Incoming,
}

/// The edge `e` starts (`Outgoing`) or ends (`Incoming`) at `n`.
pub open spec fn touches<E>(e: EdgeRecord<E>, n: NodeId, dir: Direction) -> bool {
    match dir {
        Direction::Outgoing => e.source == n,
        Direction::Incoming => e.target == n,
    }
}

/// The positions of the edges in `edges[..upto]` that touch `n` in direction
/// `dir`, last added first.
pub open spec fn edges_of<E>(edges: Seq<EdgeRecord<E>>, upto: int, n: NodeId, dir: Direction) -> Seq<
    EdgeId,
>
    decreases upto,
{
    if upto <= 0 {
        Seq::empty()
    } else if touches(edges[upto - 1], n, dir) {
        seq![(upto - 1) as usize] + edges_of(edges, upto - 1, n, dir)
    } else {
        edges_of(edges, upto - 1, n, dir)
    }
}

/// A directed graph with node weights `N` and edge weights `E`.
#[derive(Debug, Clone)]
pub struct Graph<N, E> {
    nodes: Vec<N>,
    edges: Vec<EdgeRecord<E>>,
}

impl<N, E> Graph<N, E> {
    /// The node weights, by position.
    pub closed spec fn node_seq(&self) -> Seq<N> {
        self.nodes@
    }

    /// The edges, by position.
    pub closed spec fn edge_seq(&self) -> Seq<EdgeRecord<E>> {
        self.edges@
    }

    /// Every edge joins two nodes of the graph.
    pub open spec fn wf(&self) -> bool {
        forall|i: int|
            0 <= i < self.edge_seq().len() ==> (#[trigger] self.edge_seq()[i]).source
                < self.node_seq().len() && self.edge_seq()[i].target < self.node_seq().len()
    }

    /// An empty graph.
    pub fn new() -> (r: Graph<N, E>)
        ensures
            r.node_seq().len() == 0,
            r.edge_seq().len() == 0,
    {
        Graph { nodes: Vec::new(), edges: Vec::new() }
    }

    /// The number of nodes.
    pub fn node_count(&self) -> (r: usize)
        ensures
            r == self.node_seq().len(),
    {
        self.nodes.len()
    }

    /// The number of edges.
    pub fn edge_count(&self) -> (r: usize)
        ensures
            r == self.edge_seq().len(),
    {
        self.edges.len()
    }

    /// The node weights, by position.
    pub fn raw_nodes(&self) -> (r: &Vec<N>)
        ensures
            r@ == self.node_seq(),
    {
        &self.nodes
    }

    /// The edges, by position.
    pub fn raw_edges(&self) -> (r: &Vec<EdgeRecord<E>>)
        ensures
            r@ == self.edge_seq(),
    {
        &self.edges
    }

    /// The weight of node `id`.
    pub fn node(&self, id: NodeId) -> (r: &N)
        requires
            id < self.node_seq().len(),
        ensures
            *r == self.node_seq()[id as int],
    {
        &self.nodes[id]
    }

    /// The weight of node `id`, to change it.
    pub fn node_mut(&mut self, id: NodeId) -> (r: &mut N)
        requires
            id < old(self).node_seq().len(),
        ensures
            *r == old(self).node_seq()[id as int],
            final(self).node_seq() == old(self).node_seq().update(id as int, *final(r)),
            final(self).edge_seq() == old(self).edge_seq(),
    {
        &mut self.nodes[id]
    }

    /// Adds a node; returns its position.
    pub fn add_node(&mut self, weight: N) -> (r: NodeId)
        ensures
            r == old(self).node_seq().len(),
            final(self).node_seq() == old(self).node_seq().push(weight),
            final(self).edge_seq() == old(self).edge_seq(),
    {
        self.nodes.push(weight);
        self.nodes.len() - 1
    }

    /// Adds an edge from `source` to `target`; returns its position.
    pub fn add_edge(&mut self, source: NodeId, target: NodeId, weight: E) -> (r: EdgeId)
        requires
            source < old(self).node_seq().len(),
            target < old(self).node_seq().len(),
        ensures
            r == old(self).edge_seq().len(),
            final(self).node_seq() == old(self).node_seq(),
            final(self).edge_seq() == old(self).edge_seq().push(
                EdgeRecord { source, target, weight },
            ),
    {
        self.edges.push(EdgeRecord { source, target, weight });
        self.edges.len() - 1
    }

    /// The positions of the edges that start (`Outgoing`) or end
    /// (`Incoming`) at `id`, most recently added first.
    pub fn edges_directed(&self, id: NodeId, dir: Direction) -> (r: Vec<EdgeId>)
        ensures
            r@ == edges_of(self.edge_seq(), self.edge_seq().len() as int, id, dir),
    {
        let mut r: Vec<EdgeId> = Vec::new();
        let mut i: usize = self.edges.len();
        proof {
            assert(r@ + edges_of(self.edges@, i as int, id, dir) =~= edges_of(self.edges@, i as int, id, dir));
        }
        while i > 0
            invariant
                i <= self.edges@.len(),
                r@ + edges_of(self.edges@, i as int, id, dir) == edges_of(
                    self.edges@,
                    self.edges@.len() as int,
                    id,
                    dir,
                ),
            decreases i,
        {
            let e = &self.edges[i - 1];
            let hit = match dir {
                Direction::Outgoing => e.source == id,
                Direction::Incoming => e.target == id,
            };
            let ghost old_r = r@;
            if hit {
                r.push(i - 1);
                proof {
                    assert(r@ + edges_of(self.edges@, i - 1, id, dir) =~= old_r + edges_of(self.edges@, i as int, id, dir));
                }
            }
            i -= 1;
        }
        proof {
            assert(r@ + edges_of(self.edges@, 0, id, dir) =~= r@);
        }
        r
    }
}

} // verus!
