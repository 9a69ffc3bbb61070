//! The most popular node: the one with the most outgoing edges.

use crate::graph::{adjacency_view, names_view, GraphData};
use std::collections::HashMap;
use vstd::prelude::*;
use vstd::string::StringExecFns;

verus! {

/// `id` has at least one successor and no key has more; among the keys with
/// as many, `id` is the smallest.
pub open spec fn is_most_popular(adj: Map<usize, Seq<usize>>, id: usize) -> bool {
    &&& adj.dom().contains(id)
    &&& adj[id].len() > 0
    &&& forall|other: usize| #[trigger]
        adj.dom().contains(other) ==> adj[other].len() < adj[id].len() || (adj[other].len()
            == adj[id].len() && id <= other)
}

/// The most popular node: the key with the longest successor list, the
/// smallest id winning a tie; `None` where no key has a successor.
pub open spec fn most_popular(adj: Map<usize, Seq<usize>>) -> Option<usize> {
    if exists|id: usize| is_most_popular(adj, id) {
        Some(choose|id: usize| is_most_popular(adj, id))
    } else {
        None
    }
}

/// The name that stands for a node without a registered name.
pub open spec fn unknown_name() -> Seq<char> {
    seq!['U', 'n', 'k', 'n', 'o', 'w', 'n']
}

/// The display name of the most popular node; the placeholder name where
/// there is none or where it is not registered.
pub open spec fn popular_name(adj: Map<usize, Seq<usize>>, names: Map<usize, Seq<char>>) -> Seq<
    char,
> {
    match most_popular(adj) {
        Some(id) => if names.dom().contains(id) {
            names[id]
        } else {
            unknown_name()
        },
        None => unknown_name(),
    }
}

/// At most one node is the most popular, so `most_popular` names it.
pub proof fn lemma_most_popular_unique(adj: Map<usize, Seq<usize>>, id: usize)
    requires
        is_most_popular(adj, id),
    ensures
        most_popular(adj) == Some(id),
{
    let chosen = choose|c: usize| is_most_popular(adj, c);
    assert(is_most_popular(adj, chosen));
    assert(adj.dom().contains(chosen) && adj.dom().contains(id));
}

/// A registered node whose successor list is strictly longer than that of
/// every other key is the one whose name is reported. A key that stands
/// alone with an empty list dominates in that sense too, yet has no
/// successor: for it the placeholder is reported, so the law holds there
/// only if the placeholder is its name.
pub proof fn lemma_dominant_is_popular(
    adj: Map<usize, Seq<usize>>,
    names: Map<usize, Seq<char>>,
    id: usize,
)
    requires
        adj.dom().contains(id),
        names.dom().contains(id),
        forall|other: usize|
            other != id && #[trigger] adj.dom().contains(other) ==> adj[other].len()
                < adj[id].len(),
        adj[id].len() > 0 || names[id] == unknown_name(),
    ensures
        popular_name(adj, names) == names[id],
{
    if adj[id].len() > 0 {
        lemma_most_popular_unique(adj, id);
    } else {
        assert forall|c: usize| !is_most_popular(adj, c) by {
            if is_most_popular(adj, c) {
                assert(adj.dom().contains(c));
            }
        }
    }
}

impl GraphData {
    /// Finds the node with the most outgoing edges. Among nodes with equally
    /// many the smallest id wins, whatever order the map is walked in. Gives
    /// `None` where no node has an outgoing edge.
    pub fn most_popular_id(connections: &HashMap<usize, Vec<usize>>) -> (found: Option<usize>)
        ensures
            found == most_popular(adjacency_view(connections@)),
    {
        let ghost adj = adjacency_view(connections@);
        let mut best: Option<usize> = None;
        let mut best_len: usize = 0;
        for entry in it: connections.iter()
            invariant
                adj == adjacency_view(connections@),
                match best {
                    Some(b) => adj.dom().contains(b) && adj[b].len() == best_len && best_len > 0,
                    None => best_len == 0,
                },
                forall|i: int|
                    0 <= i < it.index() ==> {
                        let len = (#[trigger] it.seq()[i]).1@.len();
                        len < best_len || (len == best_len && (best is Some ==> best.unwrap()
                            <= *it.seq()[i].0))
                    },
        {
            let id: usize = *entry.0;
            let len: usize = entry.1.len();
            let better = match best {
                Some(b) => len > best_len || (len == best_len && id < b),
                None => len > 0,
            };
            if better {
                best = Some(id);
                best_len = len;
            }
        }
        proof {
            match best {
                Some(b) => {
                    assert(forall|other: usize| #[trigger]
                        adj.dom().contains(other) ==> adj[other].len() < adj[b].len() || (
                        adj[other].len() == adj[b].len() && b <= other));
                    lemma_most_popular_unique(adj, b);
                },
                None => {
                    assert(forall|other: usize| #[trigger]
                        adj.dom().contains(other) ==> adj[other].len() == 0);
                },
            }
        }
        best
    }

    /// Identifies the node with the most outgoing connections and returns its
    /// name; `"Unknown"` where no node has a connection or the node has no
    /// registered name.
    pub fn popular_person(
        connections: HashMap<usize, Vec<usize>>,
        nodes: HashMap<usize, String>,
    ) -> (name: String)
        ensures
            name@ == popular_name(adjacency_view(connections@), names_view(nodes@)),
    {
        proof {
            reveal_strlit("Unknown");
            assert("Unknown"@ =~= unknown_name());
        }
        match GraphData::most_popular_id(&connections) {
            Some(id) => match nodes.get(&id) {
                Some(name) => name.clone(),
                None => String::from_str("Unknown"),
            },
            None => String::from_str("Unknown"),
        }
    }
}

} // verus!
