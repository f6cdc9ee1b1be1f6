//! The result of a Floyd-Warshall run: the best combined weight and the first
//! hop to take, per reachable ordered node pair, exposed read-only.

use crate::graph::Graph;
use vstd::prelude::*;

verus! {

/// The sequence of hops that repeated first-hop lookups yield from `i`
/// toward `j`, using at most `fuel` lookups: empty once `i` has reached `j`,
/// and `None` when a hop is missing or the fuel runs out first.
pub open spec fn hop_walk(nx: Map<(int, int), usize>, i: int, j: int, fuel: nat) -> Option<
    Seq<usize>,
>
    decreases fuel,
{
    if i == j {
        Some(Seq::<usize>::empty())
    } else if fuel == 0 {
        None
    } else if nx.dom().contains((i, j)) {
        match hop_walk(nx, nx[(i, j)] as int, j, (fuel - 1) as nat) {
            Some(rest) => Some(seq![nx[(i, j)]] + rest),
            None => None,
        }
    } else {
        None
    }
}

/// Result of the `FloydWarshall` algorithm: two parallel graphs over the same
/// node set, one holding the best combined weight found for each reachable
/// ordered node pair, the other the first node to step to on that path.
pub struct FloydWarshallResult<F> {
    /// Best rates for all possible paths.
    pub path: Graph<F>,
    /// Next node on the best rated path, for each possible path.
    pub next: Graph<usize>,
}

impl<F: Copy> FloydWarshallResult<F> {
    /// Well-formedness: both graphs are square over the same node set, and a
    /// first hop is recorded exactly for the pairs that have a weight.
    pub open spec fn wf(&self) -> bool {
        &&& self.path.wf()
        &&& self.next.wf()
        &&& self.path.node_count_spec() == self.next.node_count_spec()
        &&& self.path.edge_map().dom() == self.next.edge_map().dom()
    }

    /// Bundle the two graphs produced by a run into a result.
    pub fn new(path: Graph<F>, next: Graph<usize>) -> (r: Self)
        requires
            path.wf(),
            next.wf(),
            path.node_count_spec() == next.node_count_spec(),
            path.edge_map().dom() == next.edge_map().dom(),
        ensures
            r.wf(),
            r.path == path,
            r.next == next,
    {
        FloydWarshallResult { path, next }
    }

    /// Best combined weight from `i` to `j`, or `None` if no path is known.
    pub fn weight(&self, i: usize, j: usize) -> (r: Option<F>)
        requires
            self.wf(),
        ensures
            r == (if self.path.edge_map().dom().contains((i as int, j as int)) {
                Some(self.path.edge_map()[(i as int, j as int)])
            } else {
                None::<F>
            }),
    {
        self.path.edge_weight(i, j)
    }

    /// First node to step to en route from `i` to `j` on the best rated path,
    /// or `None` if no path is known.
    pub fn first_hop(&self, i: usize, j: usize) -> (r: Option<usize>)
        requires
            self.wf(),
        ensures
            r == (if self.next.edge_map().dom().contains((i as int, j as int)) {
                Some(self.next.edge_map()[(i as int, j as int)])
            } else {
                None::<usize>
            }),
    {
        self.next.edge_weight(i, j)
    }

    /// Reconstruct the full best path from `i` to `j` on demand: start at
    /// `i`, repeatedly step to the recorded first hop, and stop on reaching
    /// `j`. The walk answers `None` when a hop is missing, and gives up after
    /// as many steps as the node count, so that an inconsistent next-hop map
    /// cannot make it run forever.
    pub fn reconstruct_path(&self, i: usize, j: usize) -> (r: Option<Vec<usize>>)
        requires
            self.wf(),
        ensures
            ({
                let w = hop_walk(
                    self.next.edge_map(),
                    i as int,
                    j as int,
                    self.next.node_count_spec(),
                );
                match r {
                    Option::Some(v) => w is Some && v@ == seq![i] + w->0,
                    Option::None => w is None,
                }
            }),
    {
        let ghost nx = self.next.edge_map();
        let n = self.next.node_count();
        let mut out: Vec<usize> = Vec::new();
        out.push(i);
        let mut cur = i;
        let mut fuel = n;
        while cur != j && fuel > 0
            invariant
                self.wf(),
                nx == self.next.edge_map(),
                n == self.next.node_count_spec(),
                fuel <= n,
                out@.len() >= 1,
                out@[0] == i,
                out@[out@.len() - 1] == cur,
                hop_walk(nx, i as int, j as int, n as nat) == (match hop_walk(
                    nx,
                    cur as int,
                    j as int,
                    fuel as nat,
                ) {
                    Option::Some(rest) => Option::Some(out@.skip(1) + rest),
                    Option::None => Option::None::<Seq<usize>>,
                }),
            decreases fuel,
        {
            match self.next.edge_weight(cur, j) {
                Option::None => {
                    proof {
                        assert(hop_walk(nx, cur as int, j as int, fuel as nat) is None);
                    }
                    return None;
                },
                Option::Some(h) => {
                    let ghost old_out = out@;
                    out.push(h);
                    cur = h;
                    fuel = fuel - 1;
                    proof {
                        assert(out@.skip(1) =~= old_out.skip(1) + seq![h]);
                        assert forall|rest: Seq<usize>| (old_out.skip(1) + (seq![h] + rest)) =~= (
                        out@.skip(1) + rest) by {
                        }
                    }
                },
            }
        }
        if cur == j {
            proof {
                assert(hop_walk(nx, cur as int, j as int, fuel as nat) == Some(
                    Seq::<usize>::empty(),
                ));
                assert(out@ =~= seq![i] + out@.skip(1));
                assert(out@.skip(1) + Seq::<usize>::empty() =~= out@.skip(1));
            }
            Some(out)
        } else {
            proof {
                assert(hop_walk(nx, cur as int, j as int, fuel as nat) is None);
            }
            None
        }
    }
}

} // verus!
