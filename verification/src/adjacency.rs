//! The adjacency map: for each registered node with outgoing edges, its
//! successors in the order of the edge table.

use crate::graph::{adjacency_view, GraphData};
use std::collections::HashMap;
use vstd::prelude::*;

verus! {

/// The test "this edge starts at `from`".
pub open spec fn starts_at(from: usize) -> spec_fn((usize, usize)) -> bool {
    |edge: (usize, usize)| edge.0 == from
}

/// The node an edge points to.
pub open spec fn target_of() -> spec_fn((usize, usize)) -> usize {
    |edge: (usize, usize)| edge.1
}

/// The targets of the edges that start at `from`, in table order and with
/// repetitions.
pub open spec fn successors(edges: Seq<(usize, usize)>, from: usize) -> Seq<usize> {
    edges.filter(starts_at(from)).map_values(target_of())
}

/// The adjacency map of an edge table over the registered ids `known`: a key
/// for each registered id that some edge starts at, with its successors.
pub open spec fn adjacency_of(known: Set<usize>, edges: Seq<(usize, usize)>) -> Map<
    usize,
    Seq<usize>,
> {
    Map::new(
        |from: usize| known.contains(from) && successors(edges, from).len() > 0,
        |from: usize| successors(edges, from),
    )
}

/// The positions in `edges` of the rows that start at `from`, ascending.
pub open spec fn rows_from(edges: Seq<(usize, usize)>, from: usize) -> Seq<int>
    decreases edges.len(),
{
    if edges.len() == 0 {
        Seq::empty()
    } else if edges.last().0 == from {
        rows_from(edges.drop_last(), from).push(edges.len() - 1)
    } else {
        rows_from(edges.drop_last(), from)
    }
}

/// One more edge adds its target to the successors of the node it starts at
/// and leaves every other successor list as it was.
pub proof fn lemma_successors_push(edges: Seq<(usize, usize)>, edge: (usize, usize), from: usize)
    ensures
        successors(edges.push(edge), from) == if edge.0 == from {
            successors(edges, from).push(edge.1)
        } else {
            successors(edges, from)
        },
{
    reveal(Seq::filter);
    let longer = edges.push(edge);
    assert(longer.drop_last() =~= edges);
    assert(longer.last() == edge);
    if edge.0 == from {
        assert(longer.filter(starts_at(from)) == edges.filter(starts_at(from)).push(edge));
        assert(successors(longer, from) =~= successors(edges, from).push(edge.1));
    } else {
        assert(longer.filter(starts_at(from)) == edges.filter(starts_at(from)));
    }
}

/// A successor list has one entry for each edge row that starts at the node,
/// and the entries stand in the order of those rows: entry `k` is the target
/// of the `k`-th such row.
pub proof fn lemma_successors_follow_rows(edges: Seq<(usize, usize)>, from: usize)
    ensures
        successors(edges, from).len() == rows_from(edges, from).len(),
        forall|k: int|
            0 <= k < rows_from(edges, from).len() ==> {
                let row = #[trigger] rows_from(edges, from)[k];
                0 <= row < edges.len() && edges[row] == (from, successors(edges, from)[k])
            },
        forall|k: int, l: int|
            0 <= k < l < rows_from(edges, from).len() ==> rows_from(edges, from)[k] < rows_from(
                edges,
                from,
            )[l],
        forall|row: int|
            0 <= row < edges.len() && (#[trigger] edges[row]).0 == from ==> rows_from(
                edges,
                from,
            ).contains(row),
    decreases edges.len(),
{
    if edges.len() > 0 {
        let shorter = edges.drop_last();
        lemma_successors_follow_rows(shorter, from);
        assert(shorter.push(edges.last()) =~= edges);
        lemma_successors_push(shorter, edges.last(), from);
        let rows = rows_from(edges, from);
        let before = rows_from(shorter, from);
        assert forall|row: int|
            0 <= row < edges.len() && (#[trigger] edges[row]).0 == from implies rows.contains(
            row,
        ) by {
            if row < shorter.len() {
                assert(shorter[row].0 == from);
                let k = choose|k: int| 0 <= k < before.len() && before[k] == row;
                assert(rows[k] == row);
            } else {
                assert(rows[rows.len() - 1] == row);
            }
        }
        assert forall|k: int| 0 <= k < rows.len() implies {
            let row = #[trigger] rows[k];
            0 <= row < edges.len() && edges[row] == (from, successors(edges, from)[k])
        } by {
            if k < before.len() {
                assert(rows[k] == before[k]);
                assert(edges[before[k]] == shorter[before[k]]);
            }
        }
        assert forall|k: int, l: int| 0 <= k < l < rows.len() implies rows[k] < rows[l] by {
            assert(rows[k] == before[k]);
            if l < before.len() {
                assert(rows[l] == before[l]);
            }
        }
    }
}

impl GraphData {
    /// The three parts belong together: `connections` is the adjacency map
    /// of `edges` over the ids of `nodes`.
    pub open spec fn is_consistent(&self) -> bool {
        adjacency_view(self.connections@) == adjacency_of(self.nodes@.dom(), self.edges@)
    }

    /// Builds the adjacency map: for every registered node that some edge
    /// starts at, the targets of those edges in table order. Parallel edges
    /// and self-loops are kept; a target need not be registered.
    pub fn find_connections(nodes: HashMap<usize, String>, edges: &Vec<(usize, usize)>) -> (connections:
        HashMap<usize, Vec<usize>>)
        ensures
            adjacency_view(connections@) == adjacency_of(nodes@.dom(), edges@),
    {
        let mut connections: HashMap<usize, Vec<usize>> = HashMap::new();
        let mut row: usize = 0;
        proof {
            assert(adjacency_view(connections@) =~= adjacency_of(nodes@.dom(), edges@.take(0)));
        }
        while row < edges.len()
            invariant
                row <= edges.len(),
                adjacency_view(connections@) == adjacency_of(nodes@.dom(), edges@.take(row as int)),
            decreases edges.len() - row,
        {
            let from: usize = edges[row].0;
            let to: usize = edges[row].1;
            let ghost before = adjacency_view(connections@);
            let ghost seen = edges@.take(row as int);
            proof {
                assert(edges@.take(row + 1) =~= seen.push((from, to)));
                assert forall|k: usize|
                    successors(edges@.take(row + 1), k) == if k == from {
                        successors(seen, k).push(to)
                    } else {
                        successors(seen, k)
                    } by {
                    lemma_successors_push(seen, (from, to), k);
                }
            }
            if nodes.contains_key(&from) {
                let ghost held = connections@;
                connections.entry(from).or_insert(Vec::new()).push(to);
                proof {
                    let after = adjacency_view(connections@);
                    let wanted = adjacency_of(nodes@.dom(), edges@.take(row + 1));
                    assert(connections@.dom() =~= held.dom().insert(from));
                    if !held.dom().contains(from) {
                        assert(!before.dom().contains(from));
                        assert(successors(seen, from) =~= Seq::empty());
                    } else {
                        assert(before[from] == held[from]@);
                    }
                    assert(connections@[from]@ == successors(seen, from).push(to));
                    assert forall|k: usize| after.dom().contains(k) == wanted.dom().contains(k) by {
                        if k != from {
                            assert(before.dom().contains(k) == held.dom().contains(k));
                        }
                    }
                    assert forall|k: usize| after.dom().contains(k) implies after[k] == wanted[k] by {
                        if k != from {
                            assert(held.dom().contains(k));
                            assert(connections@[k] == held[k]);
                            assert(before[k] == held[k]@);
                        }
                    }
                    assert(after =~= wanted);
                }
            } else {
                proof {
                    assert(adjacency_view(connections@) =~= adjacency_of(
                        nodes@.dom(),
                        edges@.take(row + 1),
                    ));
                }
            }
            row += 1;
        }
        proof {
            assert(edges@.take(row as int) =~= edges@);
        }
        connections
    }
}

} // verus!
