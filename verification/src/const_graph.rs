use vstd::prelude::*;

verus! {

/// A node of a [`ConstSparseGraph`]: its incoming neighbors are stored at `start..mid`, its
/// outgoing neighbors at `mid..end` of the graph's data.
#[derive(Debug, Clone, Copy, PartialEq, Eq, Structural)]
pub struct ConstSparseGraphNode {
    pub start: u16,
    pub mid: u16,
    pub end: u16,
}

impl ConstSparseGraphNode {
    fn range_before(&self) -> (r: (usize, usize))
        ensures
            r == (self.start as usize, self.mid as usize),
    {
        (self.start as usize, self.mid as usize)
    }

    fn range_after(&self) -> (r: (usize, usize))
        ensures
            r == (self.mid as usize, self.end as usize),
    {
        (self.mid as usize, self.end as usize)
    }
}

/// A directed graph with nodes `0..n_nodes()`, for navigation between beacons.
pub trait Graph {
    /// The number of nodes.
    spec fn n_nodes(&self) -> int;

    /// Whether the adjacency lists are consistent: every list lies in the stored data and names
    /// only existing nodes.
    spec fn valid(&self) -> bool;

    /// The nodes that can be reached from node `i` in one step.
    spec fn successors(&self, i: int) -> Seq<u16>;

    /// The nodes that reach node `i` in one step.
    spec fn predecessors(&self, i: int) -> Seq<u16>;

    /// The nodes that can be reached from node `index` in one step.
    fn after(&self, index: u16) -> (r: &[u16])
        requires
            self.valid(),
            index < self.n_nodes(),
        ensures
            r@ == self.successors(index as int),
            forall|k: int| 0 <= k < r@.len() ==> (r@[k] as int) < self.n_nodes(),
    ;

    /// The nodes that reach node `index` in one step.
    fn before(&self, index: u16) -> (r: &[u16])
        requires
            self.valid(),
            index < self.n_nodes(),
        ensures
            r@ == self.predecessors(index as int),
            forall|k: int| 0 <= k < r@.len() ==> (r@[k] as int) < self.n_nodes(),
    ;

    /// The number of nodes.
    fn size(&self) -> (r: u16)
        requires
            self.valid(),
        ensures
            r == self.n_nodes(),
    ;
}

/// A sparse directed graph with adjacency lists stored in one array, meant to be generated at
/// compile time.
pub struct ConstSparseGraph<const N_NODES: usize, const N_STORE: usize> {
    pub nodes: [ConstSparseGraphNode; N_NODES],
    pub data: [u16; N_STORE],
}

impl<const N_NODES: usize, const N_STORE: usize> Graph for ConstSparseGraph<N_NODES, N_STORE> {
    open spec fn n_nodes(&self) -> int {
        N_NODES as int
    }

    open spec fn valid(&self) -> bool {
        &&& N_NODES <= u16::MAX
        &&& forall|i: int|
            0 <= i < N_NODES ==> #[trigger] self.nodes@[i].start <= self.nodes@[i].mid
                <= self.nodes@[i].end <= N_STORE
        &&& forall|k: int| 0 <= k < N_STORE ==> (#[trigger] self.data@[k] as int) < N_NODES
    }

    open spec fn successors(&self, i: int) -> Seq<u16> {
        self.data@.subrange(self.nodes@[i].mid as int, self.nodes@[i].end as int)
    }

    open spec fn predecessors(&self, i: int) -> Seq<u16> {
        self.data@.subrange(self.nodes@[i].start as int, self.nodes@[i].mid as int)
    }

    fn after(&self, index: u16) -> (r: &[u16]) {
        let node = self.nodes[index as usize];
        assert(node.start <= node.mid <= node.end <= N_STORE) by {
            assert(self.nodes@[index as int].start <= self.nodes@[index as int].mid);
        }
        let (a, b) = node.range_after();
        let data = self.data.as_slice();
        assert(data@ == self.data@);
        let r = vstd::slice::slice_subrange(data, a, b);
        proof {
            assert forall|k: int| 0 <= k < r@.len() implies (r@[k] as int) < self.n_nodes() by {
                assert(r@[k] == self.data@[a + k]);
                assert((self.data@[a + k] as int) < N_NODES);
            }
        }
        r
    }

    fn before(&self, index: u16) -> (r: &[u16]) {
        let node = self.nodes[index as usize];
        assert(node.start <= node.mid <= node.end <= N_STORE) by {
            assert(self.nodes@[index as int].start <= self.nodes@[index as int].mid);
        }
        let (a, b) = node.range_before();
        let data = self.data.as_slice();
        assert(data@ == self.data@);
        let r = vstd::slice::slice_subrange(data, a, b);
        proof {
            assert forall|k: int| 0 <= k < r@.len() implies (r@[k] as int) < self.n_nodes() by {
                assert(r@[k] == self.data@[a + k]);
                assert((self.data@[a + k] as int) < N_NODES);
            }
        }
        r
    }

    fn size(&self) -> (r: u16) {
        N_NODES as u16
    }
}

} // verus!
