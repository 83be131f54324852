//! Statistics over a whole graph: adjacency entries that are not returned,
//! the diameter, and the integer parts of the centrality measures.

use crate::graph::{entry_count, lemma_entry_count_grows, mutual_adjacency, Graph};
use crate::paths::{connects, reachable, shortest};
use crate::sorting::{pair_le, sort_pairs, sorted_pairs_form};
use vstd::prelude::*;

verus! {

/// The `k`-th neighbour of `u` does not list `u` among its own neighbours.
pub open spec fn one_way(adj: Seq<Seq<usize>>, u: int, k: int) -> bool {
    !adj[adj[u][k] as int].contains(u as usize)
}

/// How many of the first `k` neighbour entries of `u` are one-way.
pub open spec fn one_way_among(adj: Seq<Seq<usize>>, u: int, k: int) -> nat
    decreases k,
{
    if k <= 0 {
        0
    } else {
        one_way_among(adj, u, k - 1) + if one_way(adj, u, k - 1) { 1nat } else { 0nat }
    }
}

/// How many neighbour entries of the first `n` vertices are one-way.
pub open spec fn one_way_total(adj: Seq<Seq<usize>>, n: int) -> nat
    decreases n,
{
    if n <= 0 {
        0
    } else {
        one_way_total(adj, n - 1) + one_way_among(adj, n - 1, adj[n - 1].len() as int)
    }
}

/// The number of vertices on a shortest walk from `s` to `e`, where there is
/// a walk at all.
#[verifier::opaque]
pub open spec fn shortest_len(adj: Seq<Seq<usize>>, s: usize, e: usize) -> nat {
    (choose|p: Seq<usize>| shortest(adj, p, s, e)).len()
}

/// A walk leads from `s` to `e`, and a shortest one has `d` vertices at
/// most.
pub open spec fn within(adj: Seq<Seq<usize>>, s: usize, e: usize, d: nat) -> bool {
    reachable(adj, s, e) && shortest_len(adj, s, e) <= d
}

/// Any shortest walk has the shortest length.
pub proof fn lemma_shortest_len(adj: Seq<Seq<usize>>, p: Seq<usize>, s: usize, e: usize)
    requires
        shortest(adj, p, s, e),
    ensures
        shortest_len(adj, s, e) == p.len(),
        reachable(adj, s, e),
{
    reveal(shortest_len);
    let q = choose|q: Seq<usize>| shortest(adj, q, s, e);
    assert(connects(adj, q, s, e));
    assert(connects(adj, p, s, e));
}

/// One-way entries are counted from none upwards, and no more of them than
/// there are entries.
pub proof fn lemma_one_way_among_bounds(adj: Seq<Seq<usize>>, u: int, k: int, m: int)
    requires
        0 <= k <= m,
    ensures
        one_way_among(adj, u, k) <= one_way_among(adj, u, m) <= m,
    decreases m,
{
    if k < m {
        lemma_one_way_among_bounds(adj, u, k, m - 1);
    } else if m > 0 {
        lemma_one_way_among_bounds(adj, u, k - 1, m - 1);
    }
}

/// The count of one-way entries grows with the vertices counted.
pub proof fn lemma_one_way_total_grows(adj: Seq<Seq<usize>>, n: int, m: int)
    requires
        0 <= n <= m,
    ensures
        one_way_total(adj, n) <= one_way_total(adj, m),
    decreases m,
{
    if n < m {
        lemma_one_way_total_grows(adj, n, m - 1);
    }
}

/// No more entries are one-way than there are entries.
pub proof fn lemma_one_way_total_bound(adj: Seq<Seq<usize>>, n: int)
    requires
        0 <= n,
    ensures
        one_way_total(adj, n) <= entry_count(adj, n),
    decreases n,
{
    if n > 0 {
        lemma_one_way_total_bound(adj, n - 1);
        lemma_one_way_among_bounds(adj, n - 1, 0, adj[n - 1].len() as int);
    }
}

/// Where adjacency is mutual, no entry is one-way.
pub proof fn lemma_mutual_has_no_one_way(adj: Seq<Seq<usize>>, n: int)
    requires
        mutual_adjacency(adj),
        0 <= n <= adj.len(),
    ensures
        one_way_total(adj, n) == 0,
    decreases n,
{
    if n > 0 {
        lemma_mutual_has_no_one_way(adj, n - 1);
        lemma_mutual_row(adj, n - 1, adj[n - 1].len() as int);
    }
}

/// Where adjacency is mutual, no entry of `u` is one-way.
proof fn lemma_mutual_row(adj: Seq<Seq<usize>>, u: int, k: int)
    requires
        mutual_adjacency(adj),
        0 <= u < adj.len(),
        0 <= k <= adj[u].len(),
    ensures
        one_way_among(adj, u, k) == 0,
    decreases k,
{
    if k > 0 {
        lemma_mutual_row(adj, u, k - 1);
        assert(adj[adj[u][k - 1] as int].contains(u as usize));
    }
}

/// `ranking` lists every index of `degrees` once, by ascending degree, and
/// among equal degrees by ascending index.
pub open spec fn ranks_by_degree(degrees: Seq<usize>, ranking: Seq<usize>) -> bool {
    &&& ranking.len() == degrees.len()
    &&& forall|i: int| 0 <= i < ranking.len() ==> (#[trigger] ranking[i]) < degrees.len()
    &&& forall|i: int, j: int|
        #![trigger ranking[i], ranking[j]]
        0 <= i < j < ranking.len() ==> {
            ||| degrees[ranking[i] as int] < degrees[ranking[j] as int]
            ||| (degrees[ranking[i] as int] == degrees[ranking[j] as int] && ranking[i]
                < ranking[j])
        }
}

/// The indices of `degrees` by ascending degree; indices of equal degree
/// keep their ascending order.
pub fn rank_by_degree(degrees: &Vec<usize>) -> (ranking: Vec<usize>)
    ensures
        ranks_by_degree(degrees@, ranking@),
{
    let mut keyed: Vec<(usize, usize)> = Vec::new();
    let mut i: usize = 0;
    while i < degrees.len()
        invariant
            i <= degrees@.len(),
            keyed@.len() == i,
            forall|x: int| 0 <= x < i ==> keyed@[x] == (degrees@[x], x as usize),
        decreases degrees.len() - i,
    {
        keyed.push((degrees[i], i));
        i += 1;
    }
    let ghost plain = keyed@;
    sort_pairs(&mut keyed);
    proof {
        broadcast use vstd::seq_lib::group_to_multiset_ensures;

        vstd::seq_lib::to_multiset_len(plain);
        vstd::seq_lib::to_multiset_len(keyed@);
        assert(plain.no_duplicates());
        plain.lemma_multiset_has_no_duplicates();
        keyed@.lemma_multiset_has_no_duplicates_conv();
        assert forall|x: int| 0 <= x < keyed@.len() implies (#[trigger] keyed@[x]).1 < degrees@.len()
            && keyed@[x].0 == degrees@[keyed@[x].1 as int] by {
            assert(keyed@.to_multiset().count(keyed@[x]) > 0);
            assert(plain.contains(keyed@[x]));
        }
    }
    let mut ranking: Vec<usize> = Vec::new();
    let mut k: usize = 0;
    while k < keyed.len()
        invariant
            k <= keyed@.len(),
            ranking@.len() == k,
            forall|x: int| 0 <= x < k ==> ranking@[x] == (#[trigger] keyed@[x]).1,
        decreases keyed.len() - k,
    {
        ranking.push(keyed[k].1);
        k += 1;
    }
    proof {
        assert(ranking@.len() == degrees@.len());
        assert forall|x: int| 0 <= x < ranking@.len() implies (#[trigger] ranking@[x])
            < degrees@.len() by {
            assert(ranking@[x] == keyed@[x].1);
        }
        assert forall|a: int, b: int|
            #![trigger ranking@[a], ranking@[b]]
            0 <= a < b < ranking@.len() implies {
            ||| degrees@[ranking@[a] as int] < degrees@[ranking@[b] as int]
            ||| (degrees@[ranking@[a] as int] == degrees@[ranking@[b] as int] && ranking@[a]
                < ranking@[b])
        } by {
            assert(pair_le(keyed@[a], keyed@[b]));
            assert(keyed@[a] != keyed@[b]);
            assert(ranking@[a] == keyed@[a].1 && ranking@[b] == keyed@[b].1);
        }
    }
    ranking
}

impl Graph {
    /// Whether `x` occurs in the neighbour sequence of `v`.
    fn lists(&self, v: usize, x: usize) -> (found: bool)
        requires
            v < self@.len(),
        ensures
            found == self@[v as int].contains(x),
    {
        let row = &self.outedges[v];
        let mut k: usize = 0;
        while k < row.len()
            invariant
                k <= row@.len(),
                row@ == self@[v as int],
                forall|j: int| 0 <= j < k ==> row@[j] != x,
            decreases row.len() - k,
        {
            if row[k] == x {
                return true;
            }
            k += 1;
        }
        false
    }

    /// The number of neighbour entries whose neighbour does not list the
    /// vertex in turn.
    pub fn calculate_local_bridges(&self) -> (count: usize)
        requires
            self.wf(),
            one_way_total(self@, self@.len() as int) <= usize::MAX,
        ensures
            count == one_way_total(self@, self@.len() as int),
            mutual_adjacency(self@) ==> count == 0,
    {
        proof {
            if mutual_adjacency(self@) {
                lemma_mutual_has_no_one_way(self@, self@.len() as int);
            }
        }
        let mut count: usize = 0;
        let mut node: usize = 0;
        while node < self.outedges.len()
            invariant
                self.wf(),
                node <= self@.len(),
                count == one_way_total(self@, node as int),
                one_way_total(self@, self@.len() as int) <= usize::MAX,
            decreases self.outedges.len() - node,
        {
            let neighbors = &self.outedges[node];
            let ghost base = count;
            let mut k: usize = 0;
            while k < neighbors.len()
                invariant
                    self.wf(),
                    node < self@.len(),
                    neighbors@ == self@[node as int],
                    k <= neighbors@.len(),
                    base == one_way_total(self@, node as int),
                    count == base + one_way_among(self@, node as int, k as int),
                    one_way_total(self@, self@.len() as int) <= usize::MAX,
                decreases neighbors.len() - k,
            {
                let neighbor: usize = neighbors[k];
                assert(self@[node as int][k as int] < self@.len());
                if !self.lists(neighbor, node) {
                    proof {
                        lemma_one_way_among_bounds(
                            self@,
                            node as int,
                            k + 1,
                            neighbors@.len() as int,
                        );
                        lemma_one_way_total_grows(self@, node + 1, self@.len() as int);
                    }
                    count += 1;
                }
                k += 1;
            }
            node += 1;
        }
        count
    }

    /// The sum of all degrees: the number of neighbour entries in the graph.
    pub fn degree_sum(&self) -> (sum: usize)
        requires
            entry_count(self@, self@.len() as int) <= usize::MAX,
        ensures
            sum == entry_count(self@, self@.len() as int),
    {
        let mut sum: usize = 0;
        let mut w: usize = 0;
        while w < self.outedges.len()
            invariant
                w <= self@.len(),
                sum == entry_count(self@, w as int),
                entry_count(self@, self@.len() as int) <= usize::MAX,
            decreases self.outedges.len() - w,
        {
            proof {
                lemma_entry_count_grows(self@, w + 1, self@.len() as int);
            }
            sum += self.outedges[w].len();
            w += 1;
        }
        sum
    }

    /// For each vertex, the number of vertices on a shortest walk from it to
    /// the first vertex, or `None` where no walk leads there.
    pub fn reference_distances(&self) -> (lengths: Vec<Option<usize>>)
        requires
            self.wf(),
        ensures
            lengths@.len() == self@.len(),
            forall|v: usize|
                v < self@.len() ==> match #[trigger] lengths@[v as int] {
                    Some(d) => reachable(self@, v, 0) && shortest_len(self@, v, 0) == d,
                    None => !reachable(self@, v, 0),
                },
    {
        let mut lengths: Vec<Option<usize>> = Vec::new();
        let mut node: usize = 0;
        while node < self.outedges.len()
            invariant
                self.wf(),
                node <= self@.len(),
                lengths@.len() == node,
                forall|v: usize|
                    v < node ==> match #[trigger] lengths@[v as int] {
                        Some(d) => reachable(self@, v, 0) && shortest_len(self@, v, 0) == d,
                        None => !reachable(self@, v, 0),
                    },
            decreases self.outedges.len() - node,
        {
            match self.bfs_shortest_path(node + 1, 1) {
                Some(path) => {
                    proof {
                        lemma_shortest_len(self@, path@, node, 0);
                    }
                    lengths.push(Some(path.len()));
                },
                None => {
                    lengths.push(None);
                },
            }
            node += 1;
        }
        lengths
    }

    /// The largest number of vertices on a shortest walk between two
    /// vertices, or `None` where some two vertices are not connected.
    ///
    /// A graph of fewer than two vertices has the diameter 0.
    pub fn calculate_network_diameter(&self) -> (diameter: Option<usize>)
        requires
            self.wf(),
        ensures
            match diameter {
                Some(d) => {
                    &&& forall|i: usize, j: usize|
                        i < j < self@.len() ==> #[trigger] within(self@, i, j, d as nat)
                    &&& self@.len() < 2 ==> d == 0
                    &&& self@.len() >= 2 ==> exists|i: usize, j: usize|
                        i < j < self@.len() && #[trigger] shortest_len(self@, i, j) == d
                },
                None => exists|i: usize, j: usize|
                    i < j < self@.len() && !#[trigger] reachable(self@, i, j),
            },
    {
        let n = self.outedges.len();
        let mut max_diameter: usize = 0;
        let ghost mut far: (usize, usize) = (0, 0);
        let mut i: usize = 0;
        while i < n
            invariant
                self.wf(),
                n == self@.len(),
                i <= n,
                forall|a: usize, b: usize|
                    a < b < n && a < i ==> #[trigger] within(self@, a, b, max_diameter as nat),
                max_diameter == 0 || (far.0 < far.1 < n && shortest_len(self@, far.0, far.1)
                    == max_diameter),
                (i >= 1 && n >= 2) ==> max_diameter > 0,
            decreases n - i,
        {
            let mut j: usize = i + 1;
            while j < n
                invariant
                    self.wf(),
                    n == self@.len(),
                    i < j <= n,
                    forall|a: usize, b: usize|
                        a < b < n && (a < i || (a == i && b < j)) ==> #[trigger] within(
                            self@,
                            a,
                            b,
                            max_diameter as nat,
                        ),
                    max_diameter == 0 || (far.0 < far.1 < n && shortest_len(self@, far.0, far.1)
                        == max_diameter),
                    j > i + 1 ==> max_diameter > 0,
                    (i >= 1 && n >= 2) ==> max_diameter > 0,
                decreases n - j,
            {
                let ghost before = max_diameter;
                match self.bfs_shortest_path(i + 1, j + 1) {
                    Some(path) => {
                        proof {
                            lemma_shortest_len(self@, path@, i, j);
                        }
                        if path.len() > max_diameter {
                            max_diameter = path.len();
                            proof {
                                far = (i, j);
                            }
                        }
                        assert forall|a: usize, b: usize|
                            a < b < n && (a < i || (a == i && b < j + 1)) implies #[trigger] within(
                            self@,
                            a,
                            b,
                            max_diameter as nat,
                        ) by {
                            if !(a == i && b == j) {
                                assert(within(self@, a, b, before as nat));
                            }
                        }
                    },
                    None => {
                        return None;
                    },
                }
                j += 1;
            }
            i += 1;
        }
        Some(max_diameter)
    }
}

} // verus!
