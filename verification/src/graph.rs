//! A directed weighted graph over the node set `0 .. size`, with at most one
//! weight per ordered node pair. Absence of an edge is an explicit state
//! (`None` in the adjacency matrix), never an implicit zero.

use vstd::prelude::*;

verus! {

/// Adjacency-matrix graph over nodes `0 .. size` with edge weights of type `F`.
pub struct Graph<F> {
    size: usize,
    rows: Vec<Vec<Option<F>>>,
}

impl<F: Copy> Graph<F> {
    /// Structural invariant: the matrix is square with side `size`.
    pub closed spec fn wf(&self) -> bool {
        &&& self.rows@.len() == self.size
        &&& forall|i: int| 0 <= i < self.size ==> (#[trigger] self.rows@[i])@.len() == self.size
    }

    /// Number of nodes; the nodes are exactly `0 .. node_count_spec()`.
    pub closed spec fn node_count_spec(&self) -> nat {
        self.size as nat
    }

    /// The edges as a mathematical map from ordered node pairs to weights.
    pub closed spec fn edge_map(&self) -> Map<(int, int), F> {
        Map::new(
            |p: (int, int)|
                0 <= p.0 < self.size && 0 <= p.1 < self.size && self.rows@[p.0]@[p.1] is Some,
            |p: (int, int)| self.rows@[p.0]@[p.1]->0,
        )
    }

    /// Create a graph over the nodes `0 .. size` with no edges.
    pub fn new(size: usize) -> (r: Self)
        ensures
            r.wf(),
            r.node_count_spec() == size,
            r.edge_map() == Map::<(int, int), F>::empty(),
    {
        let mut rows: Vec<Vec<Option<F>>> = Vec::new();
        let mut i: usize = 0;
        while i < size
            invariant
                i <= size,
                rows@.len() == i,
                forall|a: int|
                    0 <= a < i ==> (#[trigger] rows@[a])@ =~= Seq::<Option<F>>::new(
                        size as nat,
                        |b: int| None,
                    ),
            decreases size - i,
        {
            let mut row: Vec<Option<F>> = Vec::new();
            let mut j: usize = 0;
            while j < size
                invariant
                    j <= size,
                    row@ =~= Seq::<Option<F>>::new(j as nat, |b: int| None),
                decreases size - j,
            {
                row.push(None);
                j = j + 1;
            }
            rows.push(row);
            i = i + 1;
        }
        let r = Graph { size, rows };
        proof {
            assert(r.edge_map() =~= Map::<(int, int), F>::empty());
        }
        r
    }

    /// Every recorded edge joins nodes of the graph.
    pub proof fn lemma_edges_in_range(&self)
        ensures
            forall|p: (int, int)| #[trigger]
                self.edge_map().dom().contains(p) ==> 0 <= p.0 < self.node_count_spec() && 0
                    <= p.1 < self.node_count_spec(),
    {
    }

    /// A fully independent deep copy: the engine's private working copy,
    /// whose mutation never aliases the original.
    pub fn duplicate(&self) -> (r: Self)
        requires
            self.wf(),
        ensures
            r.wf(),
            r.node_count_spec() == self.node_count_spec(),
            r.edge_map() == self.edge_map(),
    {
        let mut rows: Vec<Vec<Option<F>>> = Vec::new();
        let mut i: usize = 0;
        while i < self.size
            invariant
                i <= self.size,
                self.wf(),
                rows@.len() == i,
                forall|a: int| 0 <= a < i ==> (#[trigger] rows@[a])@ =~= self.rows@[a]@,
            decreases self.size - i,
        {
            let mut row: Vec<Option<F>> = Vec::new();
            let mut j: usize = 0;
            while j < self.size
                invariant
                    j <= self.size,
                    i < self.size,
                    self.wf(),
                    row@.len() == j,
                    forall|b: int| 0 <= b < j ==> row@[b] == self.rows@[i as int]@[b],
                decreases self.size - j,
            {
                row.push(self.rows[i][j]);
                j = j + 1;
            }
            proof {
                assert(row@ =~= self.rows@[i as int]@);
            }
            rows.push(row);
            i = i + 1;
        }
        let r = Graph { size: self.size, rows };
        proof {
            assert(r.edge_map() =~= self.edge_map());
        }
        r
    }

    /// Number of nodes in the graph.
    pub fn node_count(&self) -> (r: usize)
        ensures
            r == self.node_count_spec(),
    {
        self.size
    }

    /// The weight of the edge from `a` to `b`, or `None` if no such edge
    /// exists (including when `a` or `b` is not a node of the graph).
    pub fn edge_weight(&self, a: usize, b: usize) -> (r: Option<F>)
        requires
            self.wf(),
        ensures
            r == (if self.edge_map().dom().contains((a as int, b as int)) {
                Some(self.edge_map()[(a as int, b as int)])
            } else {
                None::<F>
            }),
    {
        if a < self.size && b < self.size {
            self.rows[a][b]
        } else {
            None
        }
    }

    /// Insert the edge from `a` to `b` with weight `w`, overwriting any
    /// weight previously recorded for that pair.
    pub fn add_edge(&mut self, a: usize, b: usize, w: F)
        requires
            old(self).wf(),
            a < old(self).node_count_spec(),
            b < old(self).node_count_spec(),
        ensures
            final(self).wf(),
            final(self).node_count_spec() == old(self).node_count_spec(),
            final(self).edge_map() == old(self).edge_map().insert((a as int, b as int), w),
    {
        let row = &mut self.rows[a];
        row.set(b, Some(w));
        proof {
            assert(self.edge_map() =~= old(self).edge_map().insert((a as int, b as int), w));
        }
    }
}

} // verus!
