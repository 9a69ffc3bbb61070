//! Bounded reachability: how many nodes lie within a number of hops of the
//! node whose name matches a pattern.

use crate::graph::{adjacency_view, names_view, GraphData};
use crate::text::{chars_of, contains, contains_chars};
use std::collections::{HashMap, HashSet, VecDeque};
use vstd::prelude::*;
use vstd::set_lib::{lemma_len_subset, lemma_set_subset_finite};

verus! {

/// The adjacency map holds an edge from `from` to `to`.
pub open spec fn has_edge(adj: Map<usize, Seq<usize>>, from: usize, to: usize) -> bool {
    adj.dom().contains(from) && adj[from].contains(to)
}

/// `target` can be reached from `start` along at most `hops` edges.
pub open spec fn within_hops(
    adj: Map<usize, Seq<usize>>,
    start: usize,
    target: usize,
    hops: nat,
) -> bool
    decreases hops,
{
    target == start || (hops > 0 && exists|mid: usize|
        within_hops(adj, start, mid, (hops - 1) as nat) && #[trigger] has_edge(adj, mid, target))
}

/// All nodes within `hops` edges of `start`, the start itself included.
pub open spec fn reachable_set(adj: Map<usize, Seq<usize>>, start: usize, hops: nat) -> Set<usize> {
    Set::new(|v: usize| within_hops(adj, start, v, hops))
}

/// The node `id` is registered under a name that contains `pattern`.
pub open spec fn matches_start(names: Map<usize, Seq<char>>, pattern: Seq<char>, id: usize) -> bool {
    names.dom().contains(id) && contains(names[id], pattern)
}

/// `id` is the smallest id whose name contains `pattern`.
pub open spec fn is_start(names: Map<usize, Seq<char>>, pattern: Seq<char>, id: usize) -> bool {
    &&& matches_start(names, pattern, id)
    &&& forall|other: usize| matches_start(names, pattern, other) ==> id <= other
}

/// The node a search for `pattern` starts from: among the registered nodes
/// whose name contains `pattern`, the one with the smallest id.
pub open spec fn start_node(names: Map<usize, Seq<char>>, pattern: Seq<char>) -> Option<usize> {
    if exists|id: usize| is_start(names, pattern, id) {
        Some(choose|id: usize| is_start(names, pattern, id))
    } else {
        None
    }
}

/// The number of nodes other than the start that lie within `hops` edges of
/// the start node for `pattern`; `None` where no name contains `pattern`.
pub open spec fn bounded_reach(
    adj: Map<usize, Seq<usize>>,
    names: Map<usize, Seq<char>>,
    pattern: Seq<char>,
    hops: nat,
) -> Option<nat> {
    match start_node(names, pattern) {
        Some(start) => Some((reachable_set(adj, start, hops).len() - 1) as nat),
        None => None,
    }
}

/// Every node that some edge of `adj` from a key in `keys` points to.
spec fn targets_from(adj: Map<usize, Seq<usize>>, keys: Set<usize>) -> Set<usize> {
    Set::new(|v: usize| exists|u: usize| keys.contains(u) && #[trigger] has_edge(adj, u, v))
}

/// From finitely many keys only finitely many nodes are pointed to.
proof fn lemma_targets_finite(adj: Map<usize, Seq<usize>>, keys: Set<usize>)
    requires
        keys.finite(),
    ensures
        targets_from(adj, keys).finite(),
    decreases keys.len(),
{
    if keys.len() == 0 {
        assert(targets_from(adj, keys) =~= Set::empty());
    } else {
        let u = keys.choose();
        let rest = keys.remove(u);
        lemma_targets_finite(adj, rest);
        let own = if adj.dom().contains(u) {
            adj[u].to_set()
        } else {
            Set::empty()
        };
        vstd::seq_lib::seq_to_set_is_finite(adj[u]);
        assert forall|v: usize| targets_from(adj, keys).contains(v) implies targets_from(
            adj,
            rest,
        ).union(own).contains(v) by {
            let w = choose|w: usize| keys.contains(w) && #[trigger] has_edge(adj, w, v);
            if w == u {
                assert(adj[u].to_set().contains(v));
            } else {
                assert(rest.contains(w) && has_edge(adj, w, v));
            }
        }
        lemma_set_subset_finite(targets_from(adj, rest).union(own), targets_from(adj, keys));
    }
}

/// A longer hop budget reaches whatever a shorter one reaches.
pub proof fn lemma_within_hops_grows(
    adj: Map<usize, Seq<usize>>,
    start: usize,
    target: usize,
    fewer: nat,
    more: nat,
)
    requires
        fewer <= more,
        within_hops(adj, start, target, fewer),
    ensures
        within_hops(adj, start, target, more),
    decreases fewer,
{
    if target != start {
        let mid = choose|mid: usize|
            within_hops(adj, start, mid, (fewer - 1) as nat) && #[trigger] has_edge(
                adj,
                mid,
                target,
            );
        lemma_within_hops_grows(adj, start, mid, (fewer - 1) as nat, (more - 1) as nat);
        assert(has_edge(adj, mid, target));
    }
}

/// Over a finite adjacency map only finitely many nodes are within reach.
pub proof fn lemma_reachable_finite(adj: Map<usize, Seq<usize>>, start: usize, hops: nat)
    requires
        adj.dom().finite(),
    ensures
        reachable_set(adj, start, hops).finite(),
        reachable_set(adj, start, hops).contains(start),
        reachable_set(adj, start, hops).len() >= 1,
{
    let all = targets_from(adj, adj.dom()).insert(start);
    lemma_targets_finite(adj, adj.dom());
    assert forall|v: usize| reachable_set(adj, start, hops).contains(v) implies all.contains(v) by {
        if v != start {
            let mid = choose|mid: usize|
                within_hops(adj, start, mid, (hops - 1) as nat) && #[trigger] has_edge(adj, mid, v);
            assert(adj.dom().contains(mid) && has_edge(adj, mid, v));
        }
    }
    lemma_set_subset_finite(all, reachable_set(adj, start, hops));
    if reachable_set(adj, start, hops).len() == 0 {
        assert(reachable_set(adj, start, hops) =~= Set::empty());
    }
}

/// At most one node is the start for a pattern, so `start_node` names it.
pub proof fn lemma_start_unique(names: Map<usize, Seq<char>>, pattern: Seq<char>, id: usize)
    requires
        is_start(names, pattern, id),
    ensures
        start_node(names, pattern) == Some(id),
{
    let chosen = choose|c: usize| is_start(names, pattern, c);
    assert(is_start(names, pattern, chosen));
    assert(chosen <= id && id <= chosen);
}

/// With no hops allowed, a search that finds its start reaches nothing else.
pub proof fn lemma_zero_hops_reach_nothing(
    adj: Map<usize, Seq<usize>>,
    names: Map<usize, Seq<char>>,
    pattern: Seq<char>,
)
    requires
        start_node(names, pattern) is Some,
    ensures
        bounded_reach(adj, names, pattern, 0) == Some(0nat),
{
    let start = start_node(names, pattern).unwrap();
    assert(reachable_set(adj, start, 0) =~= set![start]);
}

/// For a fixed graph and pattern, a larger hop limit never reaches fewer nodes.
pub proof fn lemma_reach_monotonic(
    adj: Map<usize, Seq<usize>>,
    names: Map<usize, Seq<char>>,
    pattern: Seq<char>,
    fewer: nat,
    more: nat,
)
    requires
        adj.dom().finite(),
        fewer <= more,
    ensures
        match (bounded_reach(adj, names, pattern, fewer), bounded_reach(adj, names, pattern, more)) {
            (Some(a), Some(b)) => a <= b,
            (None, None) => true,
            _ => false,
        },
{
    if let Some(start) = start_node(names, pattern) {
        let small = reachable_set(adj, start, fewer);
        let large = reachable_set(adj, start, more);
        lemma_reachable_finite(adj, start, fewer);
        lemma_reachable_finite(adj, start, more);
        assert forall|v: usize| small.contains(v) implies large.contains(v) by {
            lemma_within_hops_grows(adj, start, v, fewer, more);
        }
        lemma_len_subset(small, large);
    }
}

/// The queue holds its entries in order of depth.
spec fn queue_sorted(queue: Seq<(usize, usize)>) -> bool {
    forall|i: int, j: int| 0 <= i <= j < queue.len() ==> queue[i].1 <= queue[j].1
}

/// The node `v` waits in the queue.
spec fn queued(queue: Seq<(usize, usize)>, v: usize) -> bool {
    exists|i: int| 0 <= i < queue.len() && #[trigger] queue[i].0 == v
}

/// Every successor of `v` has been visited, at most one level below `v`.
spec fn expanded(
    adj: Map<usize, Seq<usize>>,
    visited: Set<usize>,
    depth: Map<usize, nat>,
    v: usize,
) -> bool {
    forall|w: usize| #[trigger]
        has_edge(adj, v, w) ==> visited.contains(w) && depth[w] <= depth[v] + 1
}

/// What holds of every visited node during a search: its recorded depth is
/// within the limit and a path of that length leads to it.
spec fn visited_sound(
    adj: Map<usize, Seq<usize>>,
    start: usize,
    hops: nat,
    visited: Set<usize>,
    depth: Map<usize, nat>,
) -> bool {
    &&& visited.finite()
    &&& depth.dom() =~= visited
    &&& visited.contains(start)
    &&& depth[start] == 0
    &&& forall|v: usize| #[trigger]
        visited.contains(v) ==> depth[v] <= hops && within_hops(adj, start, v, depth[v])
            && within_hops(adj, start, v, hops)
}

/// The state of a search between two nodes taken from the queue.
spec fn search_state(
    adj: Map<usize, Seq<usize>>,
    start: usize,
    hops: nat,
    visited: Set<usize>,
    depth: Map<usize, nat>,
    queue: Seq<(usize, usize)>,
) -> bool {
    &&& visited_sound(adj, start, hops, visited, depth)
    &&& forall|i: int|
        0 <= i < queue.len() ==> visited.contains(#[trigger] queue[i].0) && depth[queue[i].0]
            == queue[i].1
    &&& queue_sorted(queue)
    &&& forall|v: usize|
        #![trigger visited.contains(v)]
        visited.contains(v) && queue.len() > 0 ==> depth[v] <= queue[0].1 + 1
    &&& forall|v: usize|
        #![trigger visited.contains(v)]
        visited.contains(v) && !queued(queue, v) && depth[v] < hops ==> expanded(
            adj,
            visited,
            depth,
            v,
        )
}

/// The successors of `v`; none where `v` is no key.
spec fn successors_of(adj: Map<usize, Seq<usize>>, v: usize) -> Seq<usize> {
    if adj.dom().contains(v) {
        adj[v]
    } else {
        Seq::empty()
    }
}

/// The state of a search while the first `done` successors of `current`,
/// which was taken from the queue at depth `d`, have been looked at.
spec fn expanding_state(
    adj: Map<usize, Seq<usize>>,
    start: usize,
    hops: nat,
    visited: Set<usize>,
    depth: Map<usize, nat>,
    queue: Seq<(usize, usize)>,
    current: usize,
    d: nat,
    done: int,
) -> bool {
    &&& visited_sound(adj, start, hops, visited, depth)
    &&& visited.contains(current)
    &&& depth[current] == d
    &&& d < hops
    &&& 0 <= done <= successors_of(adj, current).len()
    &&& forall|i: int|
        0 <= i < queue.len() ==> visited.contains(#[trigger] queue[i].0) && depth[queue[i].0]
            == queue[i].1 && d <= queue[i].1
    &&& queue_sorted(queue)
    &&& forall|v: usize| #[trigger] visited.contains(v) ==> depth[v] <= d + 1
    &&& forall|v: usize|
        #![trigger visited.contains(v)]
        visited.contains(v) && v != current && !queued(queue, v) && depth[v] < hops ==> expanded(
            adj,
            visited,
            depth,
            v,
        )
    &&& forall|i: int|
        0 <= i < done ==> visited.contains(#[trigger] successors_of(adj, current)[i]) && depth[successors_of(
            adj,
            current,
        )[i]] <= d + 1
}

/// A search begins with the start alone, visited and queued at depth 0.
proof fn lemma_search_begins(adj: Map<usize, Seq<usize>>, start: usize, hops: nat)
    ensures
        search_state(
            adj,
            start,
            hops,
            Set::empty().insert(start),
            Map::empty().insert(start, 0nat),
            Seq::empty().push((start, 0usize)),
        ),
{
    let visited = Set::<usize>::empty().insert(start);
    let depth = Map::<usize, nat>::empty().insert(start, 0nat);
    let queue = Seq::<(usize, usize)>::empty().push((start, 0usize));
    assert(queued(queue, start)) by {
        assert(queue[0].0 == start);
    }
}

/// A node taken from the queue at the hop limit is left unexpanded.
proof fn lemma_skip(
    adj: Map<usize, Seq<usize>>,
    start: usize,
    hops: nat,
    visited: Set<usize>,
    depth: Map<usize, nat>,
    queue: Seq<(usize, usize)>,
)
    requires
        search_state(adj, start, hops, visited, depth, queue),
        queue.len() > 0,
        queue[0].1 >= hops,
    ensures
        search_state(adj, start, hops, visited, depth, queue.subrange(1, queue.len() as int)),
{
    let rest = queue.subrange(1, queue.len() as int);
    assert forall|v: usize|
        visited.contains(v) && !queued(rest, v) && depth[v] < hops implies expanded(
        adj,
        visited,
        depth,
        v,
    ) by {
        if queued(queue, v) {
            let i = choose|i: int| 0 <= i < queue.len() && #[trigger] queue[i].0 == v;
            if i > 0 {
                assert(rest[i - 1].0 == v);
            }
        }
    }
    assert forall|v: usize| visited.contains(v) && rest.len() > 0 implies depth[v] <= rest[0].1
        + 1 by {
        assert(rest[0] == queue[1]);
    }
}

/// A node taken from the queue below the hop limit is about to be
/// expanded.
proof fn lemma_expand_begins(
    adj: Map<usize, Seq<usize>>,
    start: usize,
    hops: nat,
    visited: Set<usize>,
    depth: Map<usize, nat>,
    queue: Seq<(usize, usize)>,
)
    requires
        search_state(adj, start, hops, visited, depth, queue),
        queue.len() > 0,
        queue[0].1 < hops,
    ensures
        expanding_state(
            adj,
            start,
            hops,
            visited,
            depth,
            queue.subrange(1, queue.len() as int),
            queue[0].0,
            queue[0].1 as nat,
            0,
        ),
{
    let rest = queue.subrange(1, queue.len() as int);
    let current = queue[0].0;
    assert(visited.contains(queue[0].0));
    assert forall|i: int| 0 <= i < rest.len() implies visited.contains(#[trigger] rest[i].0)
        && depth[rest[i].0] == rest[i].1 && queue[0].1 <= rest[i].1 by {
        assert(rest[i] == queue[i + 1]);
        assert(visited.contains(queue[i + 1].0));
    }
    assert forall|v: usize|
        visited.contains(v) && v != current && !queued(rest, v) && depth[v] < hops implies expanded(
        adj,
        visited,
        depth,
        v,
    ) by {
        if queued(queue, v) {
            let i = choose|i: int| 0 <= i < queue.len() && #[trigger] queue[i].0 == v;
            assert(rest[i - 1].0 == v);
        }
    }
}

/// A successor that was visited before needs nothing done.
proof fn lemma_expand_seen(
    adj: Map<usize, Seq<usize>>,
    start: usize,
    hops: nat,
    visited: Set<usize>,
    depth: Map<usize, nat>,
    queue: Seq<(usize, usize)>,
    current: usize,
    d: nat,
    done: int,
)
    requires
        expanding_state(adj, start, hops, visited, depth, queue, current, d, done),
        done < successors_of(adj, current).len(),
        visited.contains(successors_of(adj, current)[done]),
    ensures
        expanding_state(adj, start, hops, visited, depth, queue, current, d, done + 1),
{
}

/// A successor met for the first time is visited and queued one level
/// below the node that is being expanded.
proof fn lemma_expand_new(
    adj: Map<usize, Seq<usize>>,
    start: usize,
    hops: nat,
    visited: Set<usize>,
    depth: Map<usize, nat>,
    queue: Seq<(usize, usize)>,
    current: usize,
    d: nat,
    done: int,
)
    requires
        expanding_state(adj, start, hops, visited, depth, queue, current, d, done),
        done < successors_of(adj, current).len(),
        !visited.contains(successors_of(adj, current)[done]),
        d + 1 <= usize::MAX,
    ensures
        expanding_state(
            adj,
            start,
            hops,
            visited.insert(successors_of(adj, current)[done]),
            depth.insert(successors_of(adj, current)[done], d + 1),
            queue.push((successors_of(adj, current)[done], (d + 1) as usize)),
            current,
            d,
            done + 1,
        ),
{
    let fresh = successors_of(adj, current)[done];
    let visited2 = visited.insert(fresh);
    let depth2 = depth.insert(fresh, d + 1);
    let queue2 = queue.push((fresh, (d + 1) as usize));
    assert(has_edge(adj, current, fresh));
    assert(within_hops(adj, start, fresh, d + 1));
    lemma_within_hops_grows(adj, start, fresh, d + 1, hops);
    assert(visited_sound(adj, start, hops, visited2, depth2));
    assert forall|i: int| 0 <= i < queue2.len() implies visited2.contains(#[trigger] queue2[i].0)
        && depth2[queue2[i].0] == queue2[i].1 && d <= queue2[i].1 by {
        if i < queue.len() {
            assert(queue2[i] == queue[i]);
            assert(visited.contains(queue[i].0));
        }
    }
    assert(queue_sorted(queue2)) by {
        assert forall|i: int, j: int| 0 <= i <= j < queue2.len() implies queue2[i].1 <= queue2[j].1 by {
            if i < queue.len() {
                assert(visited.contains(queue[i].0));
            }
        }
    }
    assert forall|v: usize| #[trigger] visited2.contains(v) implies depth2[v] <= d + 1 by {
        if v != fresh {
            assert(visited.contains(v));
        }
    }
    assert forall|v: usize|
        #![trigger visited2.contains(v)]
        visited2.contains(v) && v != current && !queued(queue2, v) && depth2[v] < hops implies expanded(
        adj,
        visited2,
        depth2,
        v,
    ) by {
        if v == fresh {
            assert(queue2[queue.len() as int].0 == fresh);
        } else {
            assert(visited.contains(v));
            if queued(queue, v) {
                let i = choose|i: int| 0 <= i < queue.len() && #[trigger] queue[i].0 == v;
                assert(queue2[i].0 == v);
            }
            assert(expanded(adj, visited, depth, v));
            assert forall|w: usize| #[trigger] has_edge(adj, v, w) implies visited2.contains(w)
                && depth2[w] <= depth2[v] + 1 by {
                assert(visited.contains(w));
            }
        }
    }
    assert forall|i: int| 0 <= i < done + 1 implies visited2.contains(
        #[trigger] successors_of(adj, current)[i],
    ) && depth2[successors_of(adj, current)[i]] <= d + 1 by {
        if i < done {
            assert(visited.contains(successors_of(adj, current)[i]));
        }
    }
    assert(depth2[current] == d) by {
        assert(current != fresh);
    }
}

/// With all its successors looked at, the node is expanded.
proof fn lemma_expand_ends(
    adj: Map<usize, Seq<usize>>,
    start: usize,
    hops: nat,
    visited: Set<usize>,
    depth: Map<usize, nat>,
    queue: Seq<(usize, usize)>,
    current: usize,
    d: nat,
)
    requires
        expanding_state(
            adj,
            start,
            hops,
            visited,
            depth,
            queue,
            current,
            d,
            successors_of(adj, current).len() as int,
        ),
    ensures
        search_state(adj, start, hops, visited, depth, queue),
{
    assert(expanded(adj, visited, depth, current)) by {
        assert forall|w: usize| #[trigger] has_edge(adj, current, w) implies visited.contains(w)
            && depth[w] <= depth[current] + 1 by {
            let i = choose|i: int| 0 <= i < adj[current].len() && adj[current][i] == w;
            assert(successors_of(adj, current)[i] == w);
        }
    }
    assert forall|v: usize| visited.contains(v) && queue.len() > 0 implies depth[v] <= queue[0].1
        + 1 by {
        assert(visited.contains(queue[0].0));
    }
}

/// Once the queue is empty, whatever lies within `budget <= hops` edges of
/// the start has been visited no deeper than `budget`.
proof fn lemma_search_covers(
    adj: Map<usize, Seq<usize>>,
    start: usize,
    hops: nat,
    visited: Set<usize>,
    depth: Map<usize, nat>,
    target: usize,
    budget: nat,
)
    requires
        search_state(adj, start, hops, visited, depth, Seq::empty()),
        budget <= hops,
        within_hops(adj, start, target, budget),
    ensures
        visited.contains(target),
        depth[target] <= budget,
    decreases budget,
{
    if target != start {
        let mid = choose|mid: usize|
            within_hops(adj, start, mid, (budget - 1) as nat) && #[trigger] has_edge(
                adj,
                mid,
                target,
            );
        lemma_search_covers(adj, start, hops, visited, depth, mid, (budget - 1) as nat);
        assert(!queued(Seq::<(usize, usize)>::empty(), mid));
        assert(expanded(adj, visited, depth, mid));
        assert(has_edge(adj, mid, target));
    }
}

/// Once the queue is empty, the visited nodes are exactly those within the
/// hop limit.
proof fn lemma_search_ends(
    adj: Map<usize, Seq<usize>>,
    start: usize,
    hops: nat,
    visited: Set<usize>,
    depth: Map<usize, nat>,
)
    requires
        search_state(adj, start, hops, visited, depth, Seq::empty()),
    ensures
        visited == reachable_set(adj, start, hops),
{
    assert forall|v: usize| reachable_set(adj, start, hops).contains(v) implies visited.contains(
        v,
    ) by {
        lemma_search_covers(adj, start, hops, visited, depth, v, hops);
    }
    assert(visited =~= reachable_set(adj, start, hops));
}

impl GraphData {
    /// Finds the node a search for `pattern` starts from: the smallest id
    /// whose registered name contains `pattern` as a substring.
    pub fn find_start(nodes: &HashMap<usize, String>, pattern: &str) -> (found: Option<usize>)
        ensures
            found == start_node(names_view(nodes@), pattern@),
    {
        let pat = chars_of(pattern);
        let ghost names = names_view(nodes@);
        let mut best: Option<usize> = None;
        for entry in it: nodes.iter()
            invariant
                pat@ == pattern@,
                names == names_view(nodes@),
                match best {
                    Some(b) => matches_start(names, pat@, b) && forall|i: int|
                        0 <= i < it.index() && matches_start(names, pat@, *it.seq()[i].0) ==> b
                            <= *it.seq()[i].0,
                    None => forall|i: int|
                        0 <= i < it.index() ==> !matches_start(names, pat@, *it.seq()[i].0),
                },
        {
            let id: usize = *entry.0;
            let smaller = match best {
                Some(b) => id < b,
                None => true,
            };
            if smaller {
                let text = chars_of(entry.1.as_str());
                if contains_chars(&text, &pat) {
                    best = Some(id);
                }
            }
        }
        proof {
            match best {
                Some(b) => {
                    assert(forall|other: usize| matches_start(names, pat@, other) ==> b <= other);
                    lemma_start_unique(names, pattern@, b);
                },
                None => {
                    assert(forall|other: usize| !matches_start(names, pat@, other));
                },
            }
        }
        best
    }

    /// Counts the nodes other than `start` that lie within `max_hops` edges
    /// of it, by a breadth-first search that expands a node only while its
    /// depth is below `max_hops`.
    pub fn reach_count(graph: &HashMap<usize, Vec<usize>>, start: usize, max_hops: usize) -> (count:
        usize)
        ensures
            count == reachable_set(adjacency_view(graph@), start, max_hops as nat).len() - 1,
    {
        let ghost adj = adjacency_view(graph@);
        let ghost hops = max_hops as nat;
        let ghost goal = reachable_set(adj, start, hops);
        let ghost mut depth: Map<usize, nat> = Map::empty().insert(start, 0nat);
        let mut visited: HashSet<usize> = HashSet::new();
        let mut queue: VecDeque<(usize, usize)> = VecDeque::new();
        visited.insert(start);
        queue.push_back((start, 0));
        proof {
            assert(adj.dom() =~= graph@.dom());
            lemma_search_begins(adj, start, hops);
            lemma_reachable_finite(adj, start, hops);
            lemma_len_subset(visited@, goal);
        }
        loop
            invariant
                adj == adjacency_view(graph@),
                hops == max_hops as nat,
                goal == reachable_set(adj, start, hops),
                goal.finite(),
                visited@.len() <= goal.len(),
                search_state(adj, start, hops, visited@, depth, queue@),
            ensures
                queue@.len() == 0,
            decreases goal.len() - visited@.len() + queue@.len(),
        {
            let ghost before = queue@;
            let ghost measure = goal.len() - visited@.len() + queue@.len();
            let next = queue.pop_front();
            match next {
                None => {
                    break ;
                },
                Some((current, d)) => {
                    if d < max_hops {
                        proof {
                            lemma_expand_begins(adj, start, hops, visited@, depth, before);
                        }
                        match graph.get(&current) {
                            Some(neighbors) => {
                                let mut done: usize = 0;
                                while done < neighbors.len()
                                    invariant
                                        adj == adjacency_view(graph@),
                                        hops == max_hops as nat,
                                        goal == reachable_set(adj, start, hops),
                                        goal.finite(),
                                        visited@.len() <= goal.len(),
                                        d < max_hops,
                                        neighbors@ == successors_of(adj, current),
                                        goal.len() - visited@.len() + queue@.len() == measure - 1,
                                        expanding_state(
                                            adj,
                                            start,
                                            hops,
                                            visited@,
                                            depth,
                                            queue@,
                                            current,
                                            d as nat,
                                            done as int,
                                        ),
                                    decreases neighbors.len() - done,
                                {
                                    let neighbor = neighbors[done];
                                    if !visited.contains(&neighbor) {
                                        proof {
                                            lemma_expand_new(
                                                adj,
                                                start,
                                                hops,
                                                visited@,
                                                depth,
                                                queue@,
                                                current,
                                                d as nat,
                                                done as int,
                                            );
                                            depth = depth.insert(neighbor, (d + 1) as nat);
                                        }
                                        visited.insert(neighbor);
                                        queue.push_back((neighbor, d + 1));
                                        proof {
                                            assert(visited@.subset_of(goal));
                                            lemma_len_subset(visited@, goal);
                                        }
                                    } else {
                                        proof {
                                            lemma_expand_seen(
                                                adj,
                                                start,
                                                hops,
                                                visited@,
                                                depth,
                                                queue@,
                                                current,
                                                d as nat,
                                                done as int,
                                            );
                                        }
                                    }
                                    done += 1;
                                }
                            },
                            None => {},
                        }
                        proof {
                            lemma_expand_ends(
                                adj,
                                start,
                                hops,
                                visited@,
                                depth,
                                queue@,
                                current,
                                d as nat,
                            );
                        }
                    } else {
                        proof {
                            lemma_skip(adj, start, hops, visited@, depth, before);
                        }
                    }
                },
            }
        }
        proof {
            lemma_search_ends(adj, start, hops, visited@, depth);
        }
        visited.len() - 1
    }

    /// Runs a breadth-first search from the node whose name contains `start`
    /// and returns how many other nodes lie within `depth_threshold` hops of
    /// it; `None` where no registered name contains `start`.
    pub fn three_steps_bfs(
        graph: HashMap<usize, Vec<usize>>,
        nodes: HashMap<usize, String>,
        start: String,
        depth_threshold: usize,
    ) -> (reached: Option<usize>)
        ensures
            match bounded_reach(
                adjacency_view(graph@),
                names_view(nodes@),
                start@,
                depth_threshold as nat,
            ) {
                Some(count) => reached == Some(count as usize) && count <= usize::MAX,
                None => reached is None,
            },
    {
        match GraphData::find_start(&nodes, start.as_str()) {
            Some(id) => Some(GraphData::reach_count(&graph, id, depth_threshold)),
            None => None,
        }
    }
}

} // verus!
