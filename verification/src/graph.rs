//! The adjacency representation of an undirected graph and its construction.

use crate::sorting::{
    ascending, lemma_sorted_form_elements, lemma_sorted_form_of_ascending,
    lemma_sorted_form_unique, sort_ascending, sorted_form,
};
use vstd::prelude::*;

verus! {

/// An undirected multigraph over the dense vertex indices `0..n`.
///
/// `outedges[u]` lists the neighbours of vertex `u`, one entry per incident
/// edge end; a self-loop contributes two entries to its vertex.
#[derive(Debug)]
pub struct Graph {
    pub outedges: Vec<Vec<usize>>,
}

impl View for Graph {
    type V = Seq<Seq<usize>>;

    /// The neighbour sequences, indexed by vertex.
    open spec fn view(&self) -> Seq<Seq<usize>> {
        Seq::new(self.outedges@.len(), |u: int| self.outedges@[u]@)
    }
}

/// Every neighbour entry names a vertex of the graph.
pub open spec fn closed_adjacency(adj: Seq<Seq<usize>>) -> bool {
    forall|u: int, k: int|
        0 <= u < adj.len() && 0 <= k < adj[u].len() ==> (#[trigger] adj[u][k]) < adj.len()
}

/// Every label of `edges` is at least 1.
pub open spec fn positive_labels(edges: Seq<(usize, usize)>) -> bool {
    forall|i: int| 0 <= i < edges.len() ==> (#[trigger] edges[i]).0 >= 1 && edges[i].1 >= 1
}

/// The largest label that occurs in `edges`, 0 where there is none.
pub open spec fn max_label(edges: Seq<(usize, usize)>) -> nat
    decreases edges.len(),
{
    if edges.len() == 0 {
        0
    } else {
        let rest = max_label(edges.drop_last());
        let (u, v) = edges.last();
        let top: nat = if u >= v { u as nat } else { v as nat };
        if rest >= top { rest } else { top }
    }
}

/// What the edge between labels `u` and `v` appends to the neighbours of
/// vertex `w`: the other end, once for each end that rests on `w`.
pub open spec fn edge_ends(u: usize, v: usize, w: int) -> Seq<usize> {
    let at_u: Seq<usize> = if u - 1 == w { seq![(v - 1) as usize] } else { Seq::empty() };
    let at_v: Seq<usize> = if v - 1 == w { seq![(u - 1) as usize] } else { Seq::empty() };
    at_u + at_v
}

/// What `edges` append to the neighbours of vertex `w`, in input order.
pub open spec fn incident(edges: Seq<(usize, usize)>, w: int) -> Seq<usize>
    decreases edges.len(),
{
    if edges.len() == 0 {
        Seq::empty()
    } else {
        let (u, v) = edges.last();
        incident(edges.drop_last(), w) + edge_ends(u, v, w)
    }
}

/// The adjacency `adj` after the insertion of `edges`: the vertex range
/// reaches the largest label, and each vertex keeps its neighbours and gains
/// those that the edges give it.
pub open spec fn extended(adj: Seq<Seq<usize>>, edges: Seq<(usize, usize)>) -> Seq<Seq<usize>> {
    let n: nat = if adj.len() >= max_label(edges) { adj.len() } else { max_label(edges) };
    Seq::new(n, |w: int| vertex_or_new(adj, w) + incident(edges, w))
}

/// The neighbours of `w` in `adj`, none where `adj` has no such vertex.
pub open spec fn vertex_or_new(adj: Seq<Seq<usize>>, w: int) -> Seq<usize> {
    if 0 <= w < adj.len() {
        adj[w]
    } else {
        Seq::empty()
    }
}

/// Inserting one more edge: the vertex range reaches its labels, and its two
/// ends gain each other.
pub proof fn lemma_extended_step(
    adj: Seq<Seq<usize>>,
    edges: Seq<(usize, usize)>,
    e: (usize, usize),
    now: Seq<Seq<usize>>,
)
    requires
        positive_labels(edges),
        e.0 >= 1,
        e.1 >= 1,
        now.len() >= extended(adj, edges).len(),
        now.len() >= e.0,
        now.len() >= e.1,
        now.len() == extended(adj, edges).len() || now.len() == e.0 || now.len() == e.1,
        forall|w: int|
            0 <= w < now.len() ==> #[trigger] now[w] == vertex_or_new(extended(adj, edges), w)
                + edge_ends(e.0, e.1, w),
    ensures
        now == extended(adj, edges.push(e)),
{
    let prior = extended(adj, edges);
    let next = edges.push(e);
    let goal = extended(adj, next);
    assert(next.drop_last() =~= edges);
    assert(next.last() == e);
    assert(max_label(next) == if max_label(edges) >= e.0 && max_label(edges) >= e.1 {
        max_label(edges)
    } else if e.0 >= e.1 {
        e.0 as nat
    } else {
        e.1 as nat
    });
    assert(now.len() == goal.len());
    assert forall|w: int| 0 <= w < goal.len() implies now[w] == goal[w] by {
        assert(incident(next, w) == incident(edges, w) + edge_ends(e.0, e.1, w));
        let base = vertex_or_new(adj, w);
        if w < prior.len() {
            assert(prior[w] == base + incident(edges, w));
        } else {
            lemma_incident_beyond(edges, w);
            assert(incident(edges, w) =~= Seq::<usize>::empty());
            assert(base =~= Seq::<usize>::empty());
        }
        assert(now[w] =~= base + incident(next, w));
    }
    assert(now =~= goal);
}

/// Edges give nothing to a vertex beyond their largest label.
pub proof fn lemma_incident_beyond(edges: Seq<(usize, usize)>, w: int)
    requires
        positive_labels(edges),
        w >= max_label(edges),
    ensures
        incident(edges, w).len() == 0,
    decreases edges.len(),
{
    if edges.len() > 0 {
        lemma_positive_rest(edges);
        lemma_incident_beyond(edges.drop_last(), w);
    }
}

/// `after` has, vertex by vertex, the sorted form of the neighbours in
/// `before`.
pub open spec fn sorted_lists(before: Seq<Seq<usize>>, after: Seq<Seq<usize>>) -> bool {
    &&& after.len() == before.len()
    &&& forall|w: int| 0 <= w < before.len() ==> sorted_form(before[w], #[trigger] after[w])
}

/// Every neighbour sequence is in ascending order.
pub open spec fn ascending_lists(adj: Seq<Seq<usize>>) -> bool {
    forall|w: int| 0 <= w < adj.len() ==> ascending(#[trigger] adj[w])
}

/// Whoever is listed as a neighbour lists the vertex in turn.
pub open spec fn mutual_adjacency(adj: Seq<Seq<usize>>) -> bool {
    forall|u: int, k: int|
        0 <= u < adj.len() && 0 <= k < adj[u].len() ==> {
            &&& (#[trigger] adj[u][k]) < adj.len()
            &&& adj[adj[u][k] as int].contains(u as usize)
        }
}

/// The edge `e`, given by labels, joins vertex `w` to vertex `x`.
pub open spec fn joins(e: (usize, usize), w: int, x: int) -> bool {
    (e.0 - 1 == w && e.1 - 1 == x) || (e.1 - 1 == w && e.0 - 1 == x)
}

/// No label of `edges` exceeds `max_label(edges)`.
pub proof fn lemma_label_bound(edges: Seq<(usize, usize)>, i: int)
    requires
        0 <= i < edges.len(),
    ensures
        edges[i].0 <= max_label(edges),
        edges[i].1 <= max_label(edges),
    decreases edges.len(),
{
    if i < edges.len() - 1 {
        lemma_label_bound(edges.drop_last(), i);
    }
}

/// Some edge carries the largest label.
pub proof fn lemma_label_reached(edges: Seq<(usize, usize)>) -> (i: int)
    requires
        edges.len() > 0,
    ensures
        0 <= i < edges.len(),
        edges[i].0 == max_label(edges) || edges[i].1 == max_label(edges),
    decreases edges.len(),
{
    let (u, v) = edges.last();
    let top: nat = if u >= v { u as nat } else { v as nat };
    let rest = edges.drop_last();
    if rest.len() == 0 {
        assert(max_label(rest) == 0);
        edges.len() - 1
    } else if max_label(rest) < top {
        edges.len() - 1
    } else {
        let i = lemma_label_reached(rest);
        assert(rest[i] == edges[i]);
        i
    }
}

/// The neighbours that `edges` give to `w` are the vertices that one of
/// them joins to `w`.
pub proof fn lemma_incident_contains(edges: Seq<(usize, usize)>, w: int, x: usize)
    requires
        positive_labels(edges),
    ensures
        incident(edges, w).contains(x) <==> exists|i: int|
            0 <= i < edges.len() && joins(#[trigger] edges[i], w, x as int),
    decreases edges.len(),
{
    if edges.len() > 0 {
        let rest = edges.drop_last();
        let (u, v) = edges.last();
        let ends = edge_ends(u, v, w);
        lemma_positive_rest(edges);
        lemma_incident_contains(rest, w, x);
        let whole = incident(rest, w) + ends;
        assert(ends.contains(x) <==> joins(edges.last(), w, x as int)) by {
            if joins(edges.last(), w, x as int) {
                if u - 1 == w && v - 1 == x {
                    assert(ends[0] == x);
                } else {
                    assert(ends[ends.len() - 1] == x);
                }
            }
        }
        if whole.contains(x) {
            let k = choose|k: int| 0 <= k < whole.len() && whole[k] == x;
            if k < incident(rest, w).len() {
                assert(incident(rest, w)[k] == x);
                let i = choose|i: int| 0 <= i < rest.len() && joins(#[trigger] rest[i], w, x as int);
                assert(joins(edges[i], w, x as int));
            } else {
                assert(ends[k - incident(rest, w).len()] == x);
                assert(joins(edges[edges.len() - 1], w, x as int));
            }
        }
        if exists|i: int| 0 <= i < edges.len() && joins(#[trigger] edges[i], w, x as int) {
            let i = choose|i: int| 0 <= i < edges.len() && joins(#[trigger] edges[i], w, x as int);
            if i < rest.len() {
                assert(joins(rest[i], w, x as int));
                let k = choose|k: int| 0 <= k < incident(rest, w).len() && incident(rest, w)[k] == x;
                assert(whole[k] == x);
            } else {
                let k = choose|k: int| 0 <= k < ends.len() && ends[k] == x;
                assert(whole[incident(rest, w).len() + k] == x);
            }
        }
    } else {
        assert(!incident(edges, w).contains(x));
    }
}

/// A neighbour of `w` after the insertion of `edges` was one before, or one
/// of the edges joins it to `w`.
pub proof fn lemma_extended_contains(
    adj: Seq<Seq<usize>>,
    edges: Seq<(usize, usize)>,
    w: int,
    x: usize,
)
    requires
        positive_labels(edges),
        0 <= w < extended(adj, edges).len(),
    ensures
        extended(adj, edges)[w].contains(x) <==> (w < adj.len() && adj[w].contains(x)) || exists|
            i: int,
        | 0 <= i < edges.len() && joins(#[trigger] edges[i], w, x as int),
{
    lemma_incident_contains(edges, w, x);
    let base = vertex_or_new(adj, w);
    let added = incident(edges, w);
    let whole = base + added;
    assert(extended(adj, edges)[w] == whole);
    if whole.contains(x) {
        let k = choose|k: int| 0 <= k < whole.len() && whole[k] == x;
        if k < base.len() {
            assert(base[k] == x);
        } else {
            assert(added[k - base.len()] == x);
        }
    }
    if base.contains(x) {
        let k = choose|k: int| 0 <= k < base.len() && base[k] == x;
        assert(whole[k] == x);
    }
    if added.contains(x) {
        let k = choose|k: int| 0 <= k < added.len() && added[k] == x;
        assert(whole[base.len() + k] == x);
    }
}

/// Inserting edges keeps neighbour entries inside the vertex range, and
/// keeps adjacency mutual.
pub proof fn lemma_extended_preserves(adj: Seq<Seq<usize>>, edges: Seq<(usize, usize)>)
    requires
        positive_labels(edges),
    ensures
        closed_adjacency(adj) ==> closed_adjacency(extended(adj, edges)),
        mutual_adjacency(adj) ==> mutual_adjacency(extended(adj, edges)),
{
    let ext = extended(adj, edges);
    assert forall|u: int, k: int| 0 <= u < ext.len() && 0 <= k < ext[u].len() implies ((
    closed_adjacency(adj) || mutual_adjacency(adj)) ==> (#[trigger] ext[u][k]) < ext.len()) && (
    mutual_adjacency(adj) ==> ext[ext[u][k] as int].contains(u as usize)) by {
        let x = ext[u][k];
        assert(ext[u].contains(x));
        lemma_extended_contains(adj, edges, u, x);
        if u < adj.len() && adj[u].contains(x) {
            let j = choose|j: int| 0 <= j < adj[u].len() && adj[u][j] == x;
            if closed_adjacency(adj) {
                assert(adj[u][j] < adj.len());
            }
            if mutual_adjacency(adj) {
                assert(adj[u][j] < adj.len());
                assert(adj[adj[u][j] as int].contains(u as usize));
                lemma_extended_contains(adj, edges, x as int, u as usize);
            }
        } else {
            let i = choose|i: int| 0 <= i < edges.len() && joins(#[trigger] edges[i], u, x as int);
            lemma_label_bound(edges, i);
            assert(joins(edges[i], x as int, u));
            lemma_extended_contains(adj, edges, x as int, u as usize);
        }
    }
}

/// The edge `e`, given by labels, is recorded in `adj`: both of its ends are
/// vertices, and each lists the other among its neighbours.
pub open spec fn records(adj: Seq<Seq<usize>>, e: (usize, usize)) -> bool {
    &&& 1 <= e.0 <= adj.len()
    &&& 1 <= e.1 <= adj.len()
    &&& adj[e.0 - 1].contains((e.1 - 1) as usize)
    &&& adj[e.1 - 1].contains((e.0 - 1) as usize)
}

/// After the insertion of `edges` the vertex range reaches the largest
/// label, and each edge is recorded at both of its ends.
pub proof fn lemma_extended_records(adj: Seq<Seq<usize>>, edges: Seq<(usize, usize)>, i: int)
    requires
        positive_labels(edges),
        0 <= i < edges.len(),
    ensures
        extended(adj, edges).len() >= max_label(edges),
        records(extended(adj, edges), edges[i]),
{
    lemma_label_bound(edges, i);
    assert(joins(edges[i], edges[i].0 - 1, edges[i].1 - 1));
    assert(joins(edges[i], edges[i].1 - 1, edges[i].0 - 1));
    lemma_extended_contains(adj, edges, edges[i].0 - 1, (edges[i].1 - 1) as usize);
    lemma_extended_contains(adj, edges, edges[i].1 - 1, (edges[i].0 - 1) as usize);
}

/// Sorting the neighbour sequences changes neither which vertices are listed
/// where nor how many.
pub proof fn lemma_sorted_lists_preserve(before: Seq<Seq<usize>>, after: Seq<Seq<usize>>)
    requires
        sorted_lists(before, after),
    ensures
        forall|w: int| 0 <= w < before.len() ==> (#[trigger] after[w]).len() == before[w].len(),
        forall|w: int, x: usize|
            0 <= w < before.len() ==> (before[w].contains(x) <==> (#[trigger] after[w].contains(x))),
        closed_adjacency(before) ==> closed_adjacency(after),
        mutual_adjacency(before) ==> mutual_adjacency(after),
        forall|e: (usize, usize)| records(before, e) ==> #[trigger] records(after, e),
{
    assert forall|w: int| 0 <= w < before.len() implies (#[trigger] after[w]).len()
        == before[w].len() && forall|x: usize|
        before[w].contains(x) <==> (#[trigger] after[w].contains(x)) by {
        lemma_sorted_form_elements(before[w], after[w]);
    }
    assert forall|u: int, k: int| 0 <= u < after.len() && 0 <= k < after[u].len() implies ((
    closed_adjacency(before) || mutual_adjacency(before)) ==> (#[trigger] after[u][k])
        < after.len()) && (mutual_adjacency(before) ==> after[after[u][k] as int].contains(
        u as usize,
    )) by {
        let x = after[u][k];
        assert(after[u].contains(x));
        assert(before[u].contains(x));
        let j = choose|j: int| 0 <= j < before[u].len() && before[u][j] == x;
        if closed_adjacency(before) {
            assert(before[u][j] < before.len());
        }
        if mutual_adjacency(before) {
            assert(before[u][j] < before.len());
            assert(before[before[u][j] as int].contains(u as usize));
            assert(after[x as int].contains(u as usize));
        }
    }
}

/// The number of neighbour entries of the first `n` vertices.
pub open spec fn entry_count(adj: Seq<Seq<usize>>, n: int) -> nat
    decreases n,
{
    if n <= 0 {
        0
    } else {
        entry_count(adj, n - 1) + adj[n - 1].len()
    }
}

/// The number of edge ends that `edges` have at the first `n` vertices.
pub open spec fn ends_below(edges: Seq<(usize, usize)>, n: int) -> nat
    decreases edges.len(),
{
    if edges.len() == 0 {
        0
    } else {
        let (u, v) = edges.last();
        ends_below(edges.drop_last(), n) + (if u - 1 < n { 1nat } else { 0nat }) + (if v - 1 < n {
            1nat
        } else {
            0nat
        })
    }
}

/// The number of entries grows with the vertices counted.
pub proof fn lemma_entry_count_grows(adj: Seq<Seq<usize>>, n: int, m: int)
    requires
        0 <= n <= m,
    ensures
        entry_count(adj, n) <= entry_count(adj, m),
    decreases m,
{
    if n < m {
        lemma_entry_count_grows(adj, n, m - 1);
    }
}

/// All but the last of positive labels are positive labels.
proof fn lemma_positive_rest(edges: Seq<(usize, usize)>)
    requires
        positive_labels(edges),
        edges.len() > 0,
    ensures
        positive_labels(edges.drop_last()),
{
    let rest = edges.drop_last();
    assert forall|i: int| 0 <= i < rest.len() implies (#[trigger] rest[i]).0 >= 1 && rest[i].1
        >= 1 by {
        assert(rest[i] == edges[i]);
    }
}

/// One more vertex counted adds the edge ends that rest on it.
proof fn lemma_ends_below_step(edges: Seq<(usize, usize)>, n: int)
    requires
        positive_labels(edges),
        0 <= n,
    ensures
        ends_below(edges, 0) == 0,
        ends_below(edges, n + 1) == ends_below(edges, n) + incident(edges, n).len(),
    decreases edges.len(),
{
    if edges.len() > 0 {
        lemma_positive_rest(edges);
        lemma_ends_below_step(edges.drop_last(), n);
        assert(edges.last() == edges[edges.len() - 1]);
    }
}

/// Every edge has both of its ends at the vertices up to the largest label.
proof fn lemma_ends_below_all(edges: Seq<(usize, usize)>, n: int)
    requires
        n >= max_label(edges),
    ensures
        ends_below(edges, n) == 2 * edges.len(),
    decreases edges.len(),
{
    if edges.len() > 0 {
        lemma_ends_below_all(edges.drop_last(), n);
    }
}

/// Where each vertex has as many entries as `edges` give it, the entries of
/// the first `n` vertices are the edge ends at them.
proof fn lemma_entries_are_ends(adj: Seq<Seq<usize>>, edges: Seq<(usize, usize)>, n: int)
    requires
        positive_labels(edges),
        0 <= n <= adj.len(),
        forall|w: int| 0 <= w < adj.len() ==> (#[trigger] adj[w]).len() == incident(edges, w).len(),
    ensures
        entry_count(adj, n) == ends_below(edges, n),
    decreases n,
{
    if n > 0 {
        lemma_entries_are_ends(adj, edges, n - 1);
        lemma_ends_below_step(edges, n - 1);
    } else {
        lemma_ends_below_step(edges, 0);
    }
}

/// The degrees of a graph made of `edges` alone add up to twice the number
/// of edges, sorted or not.
pub proof fn lemma_degree_sum(edges: Seq<(usize, usize)>, adj: Seq<Seq<usize>>)
    requires
        positive_labels(edges),
        adj == extended(Seq::empty(), edges) || sorted_lists(extended(Seq::empty(), edges), adj),
    ensures
        entry_count(adj, adj.len() as int) == 2 * edges.len(),
{
    let raw = extended(Seq::empty(), edges);
    assert forall|w: int| 0 <= w < adj.len() implies (#[trigger] adj[w]).len() == incident(
        edges,
        w,
    ).len() by {
        assert(raw[w] =~= incident(edges, w));
        if adj != raw {
            lemma_sorted_form_elements(raw[w], adj[w]);
        }
    }
    lemma_entries_are_ends(adj, edges, adj.len() as int);
    lemma_ends_below_all(edges, adj.len() as int);
}

/// Sorting has one outcome: two adjacencies that both hold the sorted
/// neighbour sequences of a third are equal.
pub proof fn lemma_sorted_lists_unique(
    before: Seq<Seq<usize>>,
    first: Seq<Seq<usize>>,
    second: Seq<Seq<usize>>,
)
    requires
        sorted_lists(before, first),
        sorted_lists(before, second),
    ensures
        first == second,
{
    assert forall|w: int| 0 <= w < first.len() implies first[w] == second[w] by {
        lemma_sorted_form_unique(before[w], first[w], second[w]);
    }
    assert(first =~= second);
}

/// Sorting is idempotent: sorted neighbour sequences are ascending, and
/// sorting ascending neighbour sequences changes nothing.
pub proof fn lemma_sorting_idempotent(
    before: Seq<Seq<usize>>,
    once: Seq<Seq<usize>>,
    twice: Seq<Seq<usize>>,
)
    requires
        sorted_lists(before, once),
        sorted_lists(once, twice),
    ensures
        ascending_lists(once),
        twice == once,
{
    assert forall|w: int| 0 <= w < once.len() implies ascending(#[trigger] once[w]) && twice[w]
        == once[w] by {
        assert(sorted_form(before[w], once[w]));
        lemma_sorted_form_of_ascending(once[w], twice[w]);
    }
    assert(twice =~= once);
}

impl Graph {
    /// Well-formedness: neighbour entries stay inside the vertex range.
    pub open spec fn wf(&self) -> bool {
        closed_adjacency(self@)
    }

    /// Appends empty neighbour sequences until the graph has `n` vertices.
    fn grow_to(&mut self, n: usize)
        ensures
            final(self)@.len() == if old(self)@.len() >= n { old(self)@.len() } else { n as nat },
            forall|w: int| 0 <= w < old(self)@.len() ==> final(self)@[w] == old(self)@[w],
            forall|w: int|
                old(self)@.len() <= w < final(self)@.len() ==> final(self)@[w].len() == 0,
    {
        let ghost before = self@;
        while self.outedges.len() < n
            invariant
                self@.len() >= before.len(),
                self@.len() <= n || self@.len() == before.len(),
                forall|w: int| 0 <= w < before.len() ==> self@[w] == before[w],
                forall|w: int| before.len() <= w < self@.len() ==> self@[w].len() == 0,
            decreases n - self.outedges.len(),
        {
            let ghost prev = self@;
            self.outedges.push(Vec::new());
            assert forall|w: int| 0 <= w < self@.len() implies self@[w] == (if w < prev.len() {
                prev[w]
            } else {
                Seq::<usize>::empty()
            }) by {}
        }
    }

    /// Inserts each edge of `edges`, given by 1-based labels, in both
    /// directions, growing the vertex range to cover every endpoint.
    pub fn add_undirected_edges(&mut self, edges: &[(usize, usize)])
        requires
            positive_labels(edges@),
        ensures
            final(self)@ == extended(old(self)@, edges@),
            old(self).wf() ==> final(self).wf(),
            mutual_adjacency(old(self)@) ==> mutual_adjacency(final(self)@),
            forall|i: int|
                0 <= i < edges@.len() ==> records(final(self)@, #[trigger] edges@[i]),
    {
        let ghost before = self@;
        let mut i: usize = 0;
        while i < edges.len()
            invariant
                i <= edges.len(),
                positive_labels(edges@),
                self@ == extended(before, edges@.take(i as int)),
            decreases edges.len() - i,
        {
            let (u, v) = edges[i];
            let u_idx: usize = u - 1;
            let v_idx: usize = v - 1;
            let ghost prior = self@;
            if u_idx >= self.outedges.len() {
                self.grow_to(u_idx + 1);
            }
            if v_idx >= self.outedges.len() {
                self.grow_to(v_idx + 1);
            }
            let ghost grown = self@;
            assert(grown.len() >= prior.len() && grown.len() >= u && grown.len() >= v);
            assert(grown.len() == prior.len() || grown.len() == u || grown.len() == v);
            assert forall|w: int| 0 <= w < grown.len() implies grown[w] =~= vertex_or_new(
                prior,
                w,
            ) by {
                if w < prior.len() {
                    assert(grown[w] == prior[w]);
                } else {
                    assert(grown[w].len() == 0);
                }
            }
            self.outedges[u_idx].push(v_idx);
            let ghost half = self@;
            assert forall|w: int| 0 <= w < grown.len() implies half[w] =~= (if w == u_idx {
                grown[w].push(v_idx)
            } else {
                grown[w]
            }) by {}
            self.outedges[v_idx].push(u_idx);
            proof {
                assert forall|w: int| 0 <= w < grown.len() implies self@[w] =~= vertex_or_new(
                    prior,
                    w,
                ) + edge_ends(u, v, w) by {
                    assert(self@[w] =~= (if w == v_idx {
                        half[w].push(u_idx)
                    } else {
                        half[w]
                    }));
                    assert(grown[w] =~= vertex_or_new(prior, w));
                }
                assert(edges@.take(i + 1) =~= edges@.take(i as int).push((u, v)));
                lemma_extended_step(before, edges@.take(i as int), (u, v), self@);
            }
            i += 1;
        }
        proof {
            assert(edges@.take(edges@.len() as int) == edges@);
            lemma_extended_preserves(before, edges@);
            assert forall|i: int| 0 <= i < edges@.len() implies records(
                self@,
                #[trigger] edges@[i],
            ) by {
                lemma_extended_records(before, edges@, i);
            }
        }
    }

    /// Puts every neighbour sequence in ascending order.
    pub fn sort_graph_lists(&mut self)
        ensures
            sorted_lists(old(self)@, final(self)@),
            ascending_lists(final(self)@),
            ascending_lists(old(self)@) ==> final(self)@ == old(self)@,
            old(self).wf() ==> final(self).wf(),
            mutual_adjacency(old(self)@) ==> mutual_adjacency(final(self)@),
    {
        let ghost before = self@;
        let mut w: usize = 0;
        while w < self.outedges.len()
            invariant
                w <= self@.len(),
                self@.len() == before.len(),
                forall|x: int| 0 <= x < w ==> sorted_form(before[x], #[trigger] self@[x]),
                forall|x: int| w <= x < before.len() ==> self@[x] == before[x],
            decreases self.outedges.len() - w,
        {
            let ghost prev = self@;
            sort_ascending(&mut self.outedges[w]);
            assert forall|x: int| 0 <= x <= w implies sorted_form(
                before[x],
                #[trigger] self@[x],
            ) by {
                if x < w {
                    assert(self@[x] == prev[x]);
                }
            }
            assert forall|x: int| w < x < before.len() implies self@[x] == before[x] by {
                assert(self@[x] == prev[x]);
            }
            w += 1;
        }
        proof {
            lemma_sorted_lists_preserve(before, self@);
            if ascending_lists(before) {
                assert forall|x: int| 0 <= x < before.len() implies self@[x] == before[x] by {
                    assert(sorted_form(before[x], self@[x]));
                    lemma_sorted_form_of_ascending(before[x], self@[x]);
                }
                assert(self@ =~= before);
            }
        }
    }

    /// The graph of `edges`, given by 1-based labels: every edge inserted in
    /// both directions, every neighbour sequence in ascending order.
    pub fn create_undirected(edges: &[(usize, usize)]) -> (g: Graph)
        requires
            positive_labels(edges@),
        ensures
            sorted_lists(extended(Seq::empty(), edges@), g@),
            g@.len() == max_label(edges@),
            ascending_lists(g@),
            g.wf(),
            mutual_adjacency(g@),
            entry_count(g@, g@.len() as int) == 2 * edges@.len(),
            forall|i: int| 0 <= i < edges@.len() ==> records(g@, #[trigger] edges@[i]),
    {
        let mut g = Graph { outedges: Vec::new() };
        assert(g@ == Seq::<Seq<usize>>::empty());
        g.add_undirected_edges(edges);
        let ghost raw = g@;
        g.sort_graph_lists();
        proof {
            lemma_sorted_lists_preserve(raw, g@);
            lemma_degree_sum(edges@, g@);
            assert forall|i: int| 0 <= i < edges@.len() implies records(
                g@,
                #[trigger] edges@[i],
            ) by {
                assert(records(raw, edges@[i]));
            }
        }
        g
    }

    /// The number of neighbour entries of each vertex.
    pub fn calculate_degrees(&self) -> (degrees: Vec<usize>)
        ensures
            degrees@.len() == self@.len(),
            forall|w: int| 0 <= w < self@.len() ==> degrees@[w] == self@[w].len(),
    {
        let mut degrees: Vec<usize> = Vec::new();
        let mut w: usize = 0;
        while w < self.outedges.len()
            invariant
                w <= self@.len(),
                degrees@.len() == w,
                forall|x: int| 0 <= x < w ==> degrees@[x] == self@[x].len(),
            decreases self.outedges.len() - w,
        {
            degrees.push(self.outedges[w].len());
            w += 1;
        }
        degrees
    }

    /// Whether every neighbour entry names a vertex of the graph.
    pub fn is_well_formed(&self) -> (ok: bool)
        ensures
            ok == self.wf(),
    {
        let n = self.outedges.len();
        let mut u: usize = 0;
        while u < n
            invariant
                n == self@.len(),
                u <= n,
                forall|a: int, k: int|
                    0 <= a < u && 0 <= k < self@[a].len() ==> (#[trigger] self@[a][k]) < n,
            decreases n - u,
        {
            let row = &self.outedges[u];
            let mut k: usize = 0;
            while k < row.len()
                invariant
                    n == self@.len(),
                    u < n,
                    row@ == self@[u as int],
                    k <= row@.len(),
                    forall|j: int| 0 <= j < k ==> row@[j] < n,
                decreases row.len() - k,
            {
                if row[k] >= n {
                    assert(!(self@[u as int][k as int] < self@.len()));
                    return false;
                }
                k += 1;
            }
            u += 1;
        }
        true
    }

    /// The number of vertices.
    pub fn example_function_for_testing(&self) -> (n: usize)
        ensures
            n == self@.len(),
    {
        self.outedges.len()
    }
}

} // verus!
