//! Walks in a graph, and breadth-first search for a shortest one.

use crate::graph::{ascending_lists, Graph};
use crate::search::{
    lemma_advance, lemma_discover, lemma_exhausted, lemma_found, lemma_found_first,
    lemma_parent_added, lemma_parent_step, lemma_route_step, lemma_seen, lemma_start,
    lemma_tie_advance, lemma_tie_discover, lemma_tie_seen, lemma_turn, parents_inv, search_inv,
    tie_inv,
};
use std::collections::{HashMap, HashSet, VecDeque};
use vstd::prelude::*;

verus! {

/// `p` is a walk in `adj`: it has a first vertex, and each vertex but the
/// last lists the one that follows it among its neighbours.
pub open spec fn is_walk(adj: Seq<Seq<usize>>, p: Seq<usize>) -> bool {
    &&& p.len() > 0
    &&& forall|i: int|
        0 <= i < p.len() - 1 ==> (#[trigger] p[i]) < adj.len() && adj[p[i] as int].contains(
            p[i + 1],
        )
}

/// `p` is a walk from `s` to `e`.
pub open spec fn connects(adj: Seq<Seq<usize>>, p: Seq<usize>, s: usize, e: usize) -> bool {
    is_walk(adj, p) && p[0] == s && p[p.len() - 1] == e
}

/// Some walk leads from `s` to `e`.
pub open spec fn reachable(adj: Seq<Seq<usize>>, s: usize, e: usize) -> bool {
    exists|p: Seq<usize>| connects(adj, p, s, e)
}

/// `p` is a walk from `s` to `e`, and no walk from `s` to `e` has fewer
/// vertices.
pub open spec fn shortest(adj: Seq<Seq<usize>>, p: Seq<usize>, s: usize, e: usize) -> bool {
    &&& connects(adj, p, s, e)
    &&& forall|q: Seq<usize>| #[trigger] connects(adj, q, s, e) ==> p.len() <= q.len()
}

/// `p` comes before `q`: where the two first differ, `p` holds the smaller
/// vertex.
pub open spec fn precedes(p: Seq<usize>, q: Seq<usize>) -> bool {
    exists|k: int| differ_at(p, q, k)
}

/// `p` and `q` agree before position `k`, where `p` holds the smaller vertex.
pub open spec fn differ_at(p: Seq<usize>, q: Seq<usize>, k: int) -> bool {
    &&& 0 <= k < p.len()
    &&& k < q.len()
    &&& p[k] < q[k]
    &&& forall|i: int| 0 <= i < k ==> p[i] == q[i]
}

/// `p` is `q` or comes before it.
pub open spec fn not_after(p: Seq<usize>, q: Seq<usize>) -> bool {
    p == q || precedes(p, q)
}

/// `p` is the first of the shortest walks from `s` to `e`: none of them
/// comes before it.
pub open spec fn first_shortest(adj: Seq<Seq<usize>>, p: Seq<usize>, s: usize, e: usize) -> bool {
    &&& shortest(adj, p, s, e)
    &&& forall|q: Seq<usize>| #[trigger] shortest(adj, q, s, e) ==> not_after(p, q)
}

/// A walk does not leave a set of vertices that lists no neighbour outside
/// of itself: what lies outside is not reached from inside.
pub proof fn lemma_confined(adj: Seq<Seq<usize>>, inside: Set<usize>, s: usize, e: usize)
    requires
        inside.contains(s),
        !inside.contains(e),
        forall|u: usize, k: int|
            inside.contains(u) && u < adj.len() && 0 <= k < adj[u as int].len()
                ==> inside.contains(#[trigger] adj[u as int][k]),
    ensures
        !reachable(adj, s, e),
{
    assert forall|q: Seq<usize>| !connects(adj, q, s, e) by {
        if connects(adj, q, s, e) {
            lemma_walk_inside(adj, inside, q, q.len() - 1);
        }
    }
}

/// A walk that starts in a set of vertices that lists no neighbour outside
/// of itself stays in it.
pub proof fn lemma_walk_inside(adj: Seq<Seq<usize>>, inside: Set<usize>, q: Seq<usize>, j: int)
    requires
        is_walk(adj, q),
        inside.contains(q[0]),
        forall|u: usize, k: int|
            inside.contains(u) && u < adj.len() && 0 <= k < adj[u as int].len()
                ==> inside.contains(#[trigger] adj[u as int][k]),
        0 <= j < q.len(),
    ensures
        inside.contains(q[j]),
    decreases j,
{
    if j > 0 {
        lemma_walk_inside(adj, inside, q, j - 1);
        let u = q[j - 1];
        assert(u < adj.len() && adj[u as int].contains(q[j - 1 + 1]));
        let k = choose|k: int| 0 <= k < adj[u as int].len() && adj[u as int][k] == q[j];
        assert(inside.contains(adj[u as int][k]));
    }
}

/// A shortest walk from a vertex to itself is the vertex alone.
pub proof fn lemma_shortest_to_self(adj: Seq<Seq<usize>>, p: Seq<usize>, v: usize)
    requires
        shortest(adj, p, v, v),
    ensures
        p == seq![v],
{
    assert(connects(adj, seq![v], v, v));
    assert(p =~= seq![v]);
}

/// The first of the shortest walks is one walk only.
pub proof fn lemma_first_shortest_unique(
    adj: Seq<Seq<usize>>,
    p: Seq<usize>,
    q: Seq<usize>,
    s: usize,
    e: usize,
)
    requires
        first_shortest(adj, p, s, e),
        first_shortest(adj, q, s, e),
    ensures
        p == q,
{
    assert(not_after(p, q));
    assert(not_after(q, p));
    if p != q {
        let k1 = choose|k: int| differ_at(p, q, k);
        let k2 = choose|k: int| differ_at(q, p, k);
        if k1 < k2 {
            assert(q[k1] == p[k1]);
        } else if k2 < k1 {
            assert(p[k2] == q[k2]);
        }
    }
}

/// The elements of `list` from the last to the first.
fn reversed(list: Vec<usize>) -> (turned: Vec<usize>)
    ensures
        turned@.len() == list@.len(),
        forall|i: int| 0 <= i < list@.len() ==> turned@[i] == list@[list@.len() - 1 - i],
{
    let mut list = list;
    let ghost whole = list@;
    let mut turned: Vec<usize> = Vec::new();
    while list.len() > 0
        invariant
            list@.len() + turned@.len() == whole.len(),
            list@ == whole.take(list@.len() as int),
            forall|i: int| 0 <= i < turned@.len() ==> turned@[i] == whole[whole.len() - 1 - i],
        decreases list.len(),
    {
        let x = list.pop();
        match x {
            Some(x) => turned.push(x),
            None => {},
        }
    }
    turned
}

impl Graph {
    /// A shortest walk from the vertex labelled `start` to the vertex
    /// labelled `end`, as vertex indices, or `None` where no walk leads there.
    ///
    /// Labels are 1-based, indices 0-based. The search is breadth first and
    /// takes neighbours in the order in which they are listed: where every
    /// neighbour sequence is ascending, the walk returned is the first of the
    /// shortest walks, the one with the smaller vertex where two of them
    /// part.
    ///
    /// The start has to be a vertex of the graph unless it is the end as
    /// well; an end outside of the graph is not reached.
    pub fn bfs_shortest_path(&self, start: usize, end: usize) -> (found: Option<Vec<usize>>)
        requires
            self.wf(),
            start >= 1,
            end >= 1,
            start <= self@.len() || start == end,
        ensures
            match found {
                Some(path) => {
                    &&& shortest(self@, path@, (start - 1) as usize, (end - 1) as usize)
                    &&& ascending_lists(self@) ==> first_shortest(
                        self@,
                        path@,
                        (start - 1) as usize,
                        (end - 1) as usize,
                    )
                    &&& start == end ==> path@ == seq![(start - 1) as usize]
                },
                None => !reachable(self@, (start - 1) as usize, (end - 1) as usize),
            },
            found is Some <==> reachable(self@, (start - 1) as usize, (end - 1) as usize),
            start == end ==> found is Some,
    {
        broadcast use vstd::std_specs::hash::group_hash_axioms;

        let s: usize = start - 1;
        let e: usize = end - 1;
        let mut visited: HashSet<usize> = HashSet::new();
        let mut queue: VecDeque<usize> = VecDeque::new();
        let mut parent_map: HashMap<usize, usize> = HashMap::new();

        queue.push_back(s);
        visited.insert(s);
        let ghost mut order: Seq<usize> = seq![s];
        let ghost mut head: int = 0;
        let ghost mut level: Map<usize, nat> = map![s => 0nat];
        let ghost mut route: Map<usize, Seq<usize>> = map![s => seq![s]];
        proof {
            lemma_start(self@, s);
            assert(parent_map@ =~= Map::<usize, usize>::empty());
            assert(queue@ =~= order.subrange(0, 1));
            assert forall|x: usize| visited@.contains(x) <==> order.contains(x) by {
                if x == s {
                    assert(order[0] == s);
                }
            }
        }

        loop
            invariant
                self.wf(),
                s == start - 1,
                e == end - 1,
                s < self@.len() || s == e,
                0 <= head <= order.len(),
                search_inv(self@, s, order, head, 0, level),
                parents_inv(self@, s, order, level, parent_map@),
                ascending_lists(self@) ==> tie_inv(
                    self@,
                    s,
                    order,
                    head,
                    0,
                    level,
                    parent_map@,
                    route,
                ),
                queue@ == order.subrange(head, order.len() as int),
                forall|x: usize| visited@.contains(x) <==> order.contains(x),
                forall|i: int| 0 <= i < head ==> order[i] != e,
            decreases self@.len() + 1 - head,
        {
            let current = match queue.pop_front() {
                Some(current) => current,
                None => {
                    proof {
                        assert(head == order.len());
                        if order.contains(e) {
                            let i = choose|i: int| 0 <= i < order.len() && order[i] == e;
                            assert(order[i] != e);
                        }
                        lemma_exhausted(self@, s, e, order, level);
                        if s == e {
                            assert(connects(self@, seq![s], s, e));
                        }
                    }
                    return None;
                },
            };
            proof {
                assert(current == order[head]);
                assert(order.contains(current));
                lemma_turn(self@, s, order, head, level);
            }
            if current == e {
                let mut path: Vec<usize> = Vec::new();
                let mut node: usize = e;
                let ghost mut chain: Seq<usize> = seq![e];
                proof {
                    if ascending_lists(self@) {
                        lemma_route_step(self@, s, order, head, 0, level, parent_map@, route, e);
                        assert(route[e] =~= route[e].drop_last() + chain);
                    }
                }
                loop
                    invariant_except_break
                        order.contains(node),
                    invariant
                        search_inv(self@, s, order, head, 0, level),
                        parents_inv(self@, s, order, level, parent_map@),
                        ascending_lists(self@) ==> tie_inv(
                            self@,
                            s,
                            order,
                            head,
                            0,
                            level,
                            parent_map@,
                            route,
                        ),
                        ascending_lists(self@) ==> route[e] == route[node].drop_last() + chain,
                        is_walk(self@, chain),
                        chain[0] == node,
                        chain[chain.len() - 1] == e,
                        chain.len() == path@.len() + 1,
                        forall|i: int|
                            0 <= i < path@.len() ==> path@[i] == chain[chain.len() - 1 - i],
                        chain.len() + level[node] == level[e] + 1,
                    ensures
                        node == s,
                    decreases level[node],
                {
                    proof {
                        lemma_parent_step(self@, s, order, level, parent_map@, node);
                    }
                    match parent_map.get(&node) {
                        Some(parent) => {
                            let parent: usize = *parent;
                            proof {
                                let longer = seq![parent] + chain;
                                if ascending_lists(self@) {
                                    lemma_route_step(
                                        self@,
                                        s,
                                        order,
                                        head,
                                        0,
                                        level,
                                        parent_map@,
                                        route,
                                        node,
                                    );
                                    lemma_route_step(
                                        self@,
                                        s,
                                        order,
                                        head,
                                        0,
                                        level,
                                        parent_map@,
                                        route,
                                        parent,
                                    );
                                    assert(route[node].drop_last() =~= route[parent]);
                                    assert(route[e] =~= route[parent].drop_last() + longer);
                                }
                                assert forall|i: int| 0 <= i < longer.len() - 1 implies (
                                #[trigger] longer[i]) < self@.len() && self@[longer[i] as int].contains(
                                    longer[i + 1],
                                ) by {
                                    if i > 0 {
                                        assert(longer[i] == chain[i - 1]);
                                        assert(longer[i + 1] == chain[i - 1 + 1]);
                                    }
                                }
                                chain = longer;
                            }
                            path.push(node);
                            node = parent;
                        },
                        None => {
                            break ;
                        },
                    }
                }
                path.push(s);
                let path = reversed(path);
                proof {
                    assert(path@ =~= chain);
                    lemma_turn(self@, s, order, head, level);
                    lemma_found(self@, s, order, head, level, path@);
                    if ascending_lists(self@) {
                        lemma_route_step(self@, s, order, head, 0, level, parent_map@, route, e);
                        assert(route[e] =~= chain);
                        lemma_found_first(self@, s, order, head, level, parent_map@, route);
                    }
                }
                return Some(path);
            }
            proof {
                assert(current < self@.len());
                assert(queue@ =~= order.subrange(head + 1, order.len() as int));
            }
            let neighbors = &self.outedges[current];
            let mut k: usize = 0;
            while k < neighbors.len()
                invariant
                    self.wf(),
                    k <= neighbors@.len(),
                    neighbors@ == self@[current as int],
                    0 <= head < order.len(),
                    current == order[head],
                    current < self@.len(),
                    search_inv(self@, s, order, head, k as int, level),
                    parents_inv(self@, s, order, level, parent_map@),
                    ascending_lists(self@) ==> tie_inv(
                        self@,
                        s,
                        order,
                        head,
                        k as int,
                        level,
                        parent_map@,
                        route,
                    ),
                    queue@ == order.subrange(head + 1, order.len() as int),
                    forall|x: usize| visited@.contains(x) <==> order.contains(x),
                    forall|i: int| 0 <= i <= head ==> order[i] != e,
                decreases neighbors.len() - k,
            {
                let neighbor: usize = neighbors[k];
                if !visited.contains(&neighbor) {
                    proof {
                        lemma_discover(self@, s, order, head, k as int, level);
                        lemma_parent_added(self@, s, order, head, k as int, level, parent_map@);
                        if ascending_lists(self@) {
                            lemma_tie_discover(
                                self@,
                                s,
                                order,
                                head,
                                k as int,
                                level,
                                parent_map@,
                                route,
                            );
                        }
                    }
                    visited.insert(neighbor);
                    queue.push_back(neighbor);
                    parent_map.insert(neighbor, current);
                    proof {
                        let grown = order.push(neighbor);
                        assert(queue@ =~= grown.subrange(head + 1, grown.len() as int));
                        assert forall|x: usize| visited@.contains(x) <==> grown.contains(x) by {
                            if order.contains(x) {
                                let i = choose|i: int| 0 <= i < order.len() && order[i] == x;
                                assert(grown[i] == x);
                            }
                            if grown.contains(x) {
                                let i = choose|i: int| 0 <= i < grown.len() && grown[i] == x;
                                if i < order.len() {
                                    assert(order[i] == x);
                                }
                            }
                            assert(grown[order.len() as int] == neighbor);
                        }
                        assert forall|i: int| 0 <= i <= head implies grown[i] != e by {
                            assert(grown[i] == order[i]);
                        }
                        route = route.insert(neighbor, route[current].push(neighbor));
                        level = level.insert(neighbor, level[current] + 1);
                        order = grown;
                    }
                } else {
                    proof {
                        lemma_seen(self@, s, order, head, k as int, level);
                        if ascending_lists(self@) {
                            lemma_tie_seen(
                                self@,
                                s,
                                order,
                                head,
                                k as int,
                                level,
                                parent_map@,
                                route,
                            );
                        }
                    }
                }
                k += 1;
            }
            proof {
                lemma_advance(self@, s, order, head, level);
                if ascending_lists(self@) {
                    lemma_tie_advance(
                        self@,
                        s,
                        order,
                        head,
                        self@[current as int].len() as int,
                        level,
                        parent_map@,
                        route,
                    );
                }
                head = head + 1;
            }
        }
    }
}

} // verus!
