//! The state of a breadth-first search, what holds of it from step to step,
//! and what follows once the search has found its end or has run out.

use crate::graph::{ascending_lists, closed_adjacency};
use crate::paths::{
    connects, differ_at, first_shortest, is_walk, not_after, precedes, reachable, shortest,
};
use crate::sorting::ascending;
use vstd::prelude::*;

verus! {

/// `x` has been discovered, at a depth of `bound` at most.
pub closed spec fn listed(order: Seq<usize>, level: Map<usize, nat>, x: usize, bound: nat) -> bool {
    order.contains(x) && level[x] <= bound
}

/// The state of a search from `s`: `order` holds the discovered vertices as
/// they were discovered, those before `head` have had all their neighbours
/// looked at, the one at `head` its first `done`, and `level` gives the depth
/// at which each vertex was discovered.
pub closed spec fn search_inv(
    adj: Seq<Seq<usize>>,
    s: usize,
    order: Seq<usize>,
    head: int,
    done: int,
    level: Map<usize, nat>,
) -> bool {
    &&& order.len() > 0
    &&& order[0] == s
    &&& order.no_duplicates()
    &&& 0 <= head <= order.len()
    &&& level[s] == 0
    &&& forall|i: int| 0 <= i < order.len() ==> level.contains_key(#[trigger] order[i])
    &&& forall|i: int| 0 < i < order.len() ==> (#[trigger] order[i]) < adj.len()
    &&& forall|i: int, j: int|
        #![trigger order[i], order[j]]
        0 <= i <= j < order.len() ==> level[order[i]] <= level[order[j]]
    &&& head < order.len() ==> level[order[order.len() - 1]] <= level[order[head]] + 1
    &&& forall|i: int, k: int|
        0 <= i < head && order[i] < adj.len() && 0 <= k < adj[order[i] as int].len() ==> listed(
            order,
            level,
            #[trigger] adj[order[i] as int][k],
            level[order[i]] + 1,
        )
    &&& head < order.len() && order[head] < adj.len() ==> forall|k: int|
        0 <= k < done && k < adj[order[head] as int].len() ==> listed(
            order,
            level,
            #[trigger] adj[order[head] as int][k],
            level[order[head]] + 1,
        )
}

/// Each discovered vertex but `s` has a parent: a discovered vertex one level
/// up that lists it as a neighbour.
pub closed spec fn parents_inv(
    adj: Seq<Seq<usize>>,
    s: usize,
    order: Seq<usize>,
    level: Map<usize, nat>,
    parent: Map<usize, usize>,
) -> bool {
    &&& forall|x: usize| #[trigger] parent.contains_key(x) <==> order.contains(x) && x != s
    &&& forall|x: usize| #[trigger]
        parent.contains_key(x) ==> {
            &&& order.contains(parent[x])
            &&& parent[x] < adj.len()
            &&& adj[parent[x] as int].contains(x)
            &&& level[x] == level[parent[x]] + 1
        }
}

/// The parent `p` of `x` has had its turn, or has it now and has listed `x`
/// among the neighbours looked at.
pub closed spec fn via(
    adj: Seq<Seq<usize>>,
    order: Seq<usize>,
    head: int,
    done: int,
    p: usize,
    x: usize,
) -> bool {
    ||| exists|ip: int| 0 <= ip < head && ip < order.len() && #[trigger] order[ip] == p
    ||| (head < order.len() && p == order[head] && p < adj.len() && exists|k: int|
        0 <= k < done && k < adj[p as int].len() && #[trigger] adj[p as int][k] == x)
}

/// The route to `x` is a walk from `s` to `x` of as many vertices as the
/// level of `x` asks, and none of the walks of that length comes before it.
pub closed spec fn routed(
    adj: Seq<Seq<usize>>,
    s: usize,
    level: Map<usize, nat>,
    route: Map<usize, Seq<usize>>,
    x: usize,
) -> bool {
    &&& route.contains_key(x)
    &&& connects(adj, route[x], s, x)
    &&& route[x].len() == level[x] + 1
    &&& forall|q: Seq<usize>| #[trigger]
        connects(adj, q, s, x) && q.len() == level[x] + 1 ==> not_after(route[x], q)
}

/// The route to `x` is the route to its parent, and then `x`.
pub closed spec fn route_link(parent: Map<usize, usize>, route: Map<usize, Seq<usize>>, x: usize) -> bool {
    route[x] == route[parent[x]].push(x)
}

/// How a search breaks ties: each discovered vertex has a route, that of its
/// parent and then itself, and vertices of one level were discovered in the
/// order of their routes.
pub closed spec fn tie_inv(
    adj: Seq<Seq<usize>>,
    s: usize,
    order: Seq<usize>,
    head: int,
    done: int,
    level: Map<usize, nat>,
    parent: Map<usize, usize>,
    route: Map<usize, Seq<usize>>,
) -> bool {
    &&& route.contains_key(s)
    &&& route[s] == seq![s]
    &&& forall|i: int| 0 <= i < order.len() ==> routed(adj, s, level, route, #[trigger] order[i])
    &&& forall|i: int| 0 < i < order.len() ==> route_link(parent, route, #[trigger] order[i])
    &&& forall|i: int|
        0 < i < order.len() ==> via(adj, order, head, done, parent[order[i]], #[trigger] order[i])
    &&& forall|i: int, j: int|
        #![trigger order[i], order[j]]
        0 <= i < j < order.len() && level[order[i]] == level[order[j]] ==> precedes(
            route[order[i]],
            route[order[j]],
        )
}

/// Walks that differ keep their order when each gets one more vertex.
pub proof fn lemma_precedes_push(a: Seq<usize>, b: Seq<usize>, x: usize, y: usize)
    requires
        precedes(a, b),
    ensures
        precedes(a.push(x), b.push(y)),
{
    let k = choose|k: int| differ_at(a, b, k);
    assert(differ_at(a.push(x), b.push(y), k));
}

/// Of two walks that differ in their last vertex only, the one with the
/// smaller last vertex comes first.
pub proof fn lemma_precedes_last(a: Seq<usize>, x: usize, y: usize)
    requires
        x < y,
    ensures
        precedes(a.push(x), a.push(y)),
{
    assert(differ_at(a.push(x), a.push(y), a.len() as int));
}

/// What comes before a walk comes before all that the walk is not after.
pub proof fn lemma_precedes_trans(a: Seq<usize>, b: Seq<usize>, c: Seq<usize>)
    requires
        precedes(a, b),
        not_after(b, c),
    ensures
        precedes(a, c),
{
    if b != c {
        let k1 = choose|k: int| differ_at(a, b, k);
        let k2 = choose|k: int| differ_at(b, c, k);
        if k1 <= k2 {
            assert(differ_at(a, c, k1));
        } else {
            assert(differ_at(a, c, k2));
        }
    }
}

/// A walk that is not after another is not after it when both get the same
/// last vertex.
pub proof fn lemma_not_after_push(a: Seq<usize>, b: Seq<usize>, x: usize)
    requires
        not_after(a, b),
    ensures
        not_after(a.push(x), b.push(x)),
{
    if a != b {
        lemma_precedes_push(a, b, x, x);
    }
}

/// Distinct numbers below `n` are `n` at most.
pub proof fn lemma_distinct_below(t: Seq<usize>, n: nat)
    requires
        t.no_duplicates(),
        forall|i: int| 0 <= i < t.len() ==> (#[trigger] t[i]) < n,
    ensures
        t.len() <= n,
    decreases n,
{
    if t.len() > 0 {
        assert(t[0] < n);
        if exists|at: int| 0 <= at < t.len() && t[at] == n - 1 {
            let at = choose|at: int| 0 <= at < t.len() && t[at] == n - 1;
            let rest = t.remove(at);
            assert forall|i: int| 0 <= i < rest.len() implies (#[trigger] rest[i]) < n - 1 by {
                if i < at {
                    assert(rest[i] == t[i]);
                } else {
                    assert(rest[i] == t[i + 1]);
                }
            }
            assert forall|i: int, j: int|
                0 <= i < rest.len() && 0 <= j < rest.len() && i != j implies rest[i] != rest[j] by {
                let a = if i < at { i } else { i + 1 };
                let b = if j < at { j } else { j + 1 };
                assert(rest[i] == t[a] && rest[j] == t[b]);
            }
            lemma_distinct_below(rest, (n - 1) as nat);
        } else {
            lemma_distinct_below(t, (n - 1) as nat);
        }
    }
}

/// A search discovers no more than the vertices of the graph and its start.
pub proof fn lemma_order_bounded(
    adj: Seq<Seq<usize>>,
    s: usize,
    order: Seq<usize>,
    head: int,
    done: int,
    level: Map<usize, nat>,
)
    requires
        search_inv(adj, s, order, head, done, level),
    ensures
        order.len() <= adj.len() + 1,
{
    let rest = order.subrange(1, order.len() as int);
    assert forall|i: int| 0 <= i < rest.len() implies (#[trigger] rest[i]) < adj.len() by {
        assert(rest[i] == order[i + 1]);
    }
    assert forall|i: int, j: int|
        0 <= i < rest.len() && 0 <= j < rest.len() && i != j implies rest[i] != rest[j] by {
        assert(rest[i] == order[i + 1] && rest[j] == order[j + 1]);
    }
    lemma_distinct_below(rest, adj.len());
}

/// Once every discovered vertex has had its neighbours looked at, a walk
/// from `s` meets discovered vertices only.
pub proof fn lemma_walk_stays(
    adj: Seq<Seq<usize>>,
    s: usize,
    order: Seq<usize>,
    level: Map<usize, nat>,
    q: Seq<usize>,
    j: int,
)
    requires
        search_inv(adj, s, order, order.len() as int, 0, level),
        is_walk(adj, q),
        q[0] == s,
        0 <= j < q.len(),
    ensures
        order.contains(q[j]),
    decreases j,
{
    if j == 0 {
        assert(order[0] == q[0]);
    } else {
        lemma_walk_stays(adj, s, order, level, q, j - 1);
        let u = q[j - 1];
        let i = choose|i: int| 0 <= i < order.len() && order[i] == u;
        assert(u < adj.len() && adj[u as int].contains(q[j - 1 + 1]));
        let k = choose|k: int| 0 <= k < adj[u as int].len() && adj[u as int][k] == q[j];
        assert(listed(order, level, adj[order[i] as int][k], level[order[i]] + 1));
    }
}

/// A walk from `s` cannot run ahead of the search: while it stays above the
/// level of the vertex at `head`, its `j`-th vertex has been discovered at
/// level `j` at most.
pub proof fn lemma_walk_level(
    adj: Seq<Seq<usize>>,
    s: usize,
    order: Seq<usize>,
    head: int,
    done: int,
    level: Map<usize, nat>,
    q: Seq<usize>,
    j: int,
)
    requires
        search_inv(adj, s, order, head, done, level),
        head < order.len(),
        is_walk(adj, q),
        q[0] == s,
        0 <= j < q.len(),
        j <= level[order[head]],
    ensures
        listed(order, level, q[j], j as nat),
    decreases j,
{
    if j == 0 {
        assert(order[0] == q[0]);
    } else {
        lemma_walk_level(adj, s, order, head, done, level, q, j - 1);
        let u = q[j - 1];
        let i = choose|i: int| 0 <= i < order.len() && order[i] == u;
        if i >= head {
            assert(level[order[head]] <= level[order[i]]);
        }
        assert(u < adj.len() && adj[u as int].contains(q[j - 1 + 1]));
        let k = choose|k: int| 0 <= k < adj[u as int].len() && adj[u as int][k] == q[j];
        assert(listed(order, level, adj[order[i] as int][k], level[order[i]] + 1));
    }
}

/// A neighbour of the vertex at `head` that was discovered before needs
/// nothing more.
pub proof fn lemma_seen(
    adj: Seq<Seq<usize>>,
    s: usize,
    order: Seq<usize>,
    head: int,
    done: int,
    level: Map<usize, nat>,
)
    requires
        search_inv(adj, s, order, head, done, level),
        head < order.len(),
        order[head] < adj.len(),
        0 <= done < adj[order[head] as int].len(),
        order.contains(adj[order[head] as int][done]),
    ensures
        search_inv(adj, s, order, head, done + 1, level),
{
    let x = adj[order[head] as int][done];
    let i = choose|i: int| 0 <= i < order.len() && order[i] == x;
    assert(level[order[i]] <= level[order[order.len() - 1]]);
    assert(listed(order, level, x, level[order[head]] + 1));
}

/// A neighbour of the vertex at `head` that is new joins the discovered
/// vertices, one level below it.
pub proof fn lemma_discover(
    adj: Seq<Seq<usize>>,
    s: usize,
    order: Seq<usize>,
    head: int,
    done: int,
    level: Map<usize, nat>,
)
    requires
        closed_adjacency(adj),
        search_inv(adj, s, order, head, done, level),
        head < order.len(),
        order[head] < adj.len(),
        0 <= done < adj[order[head] as int].len(),
        !order.contains(adj[order[head] as int][done]),
    ensures
        search_inv(
            adj,
            s,
            order.push(adj[order[head] as int][done]),
            head,
            done + 1,
            level.insert(adj[order[head] as int][done], level[order[head]] + 1),
        ),
{
    let cur = order[head];
    let x = adj[cur as int][done];
    let grown = order.push(x);
    let deeper = level.insert(x, level[cur] + 1);
    let last = order.len() as int;
    assert(grown[last] == x);
    assert forall|i: int| 0 <= i < last implies grown[i] == order[i] && order[i] != x
        && deeper[order[i]] == level[order[i]] by {
        assert(order.contains(order[i]));
    }
    assert(grown.no_duplicates());
    assert(x < adj.len());
    assert(level[order[last - 1]] <= level[cur] + 1);
    assert forall|i: int, j: int|
        #![trigger grown[i], grown[j]]
        0 <= i <= j < grown.len() implies deeper[grown[i]] <= deeper[grown[j]] by {
        if j < last {
            assert(level[order[i]] <= level[order[j]]);
        } else if i < last {
            assert(level[order[i]] <= level[order[last - 1]]);
        }
    }
    assert forall|y: usize, b: nat| listed(order, level, y, b) implies listed(
        grown,
        deeper,
        y,
        b,
    ) by {
        let i = choose|i: int| 0 <= i < order.len() && order[i] == y;
        assert(grown[i] == y);
    }
    assert(listed(grown, deeper, x, level[cur] + 1));
    assert forall|i: int, k: int|
        0 <= i < head && grown[i] < adj.len() && 0 <= k < adj[grown[i] as int].len() implies listed(
        grown,
        deeper,
        #[trigger] adj[grown[i] as int][k],
        deeper[grown[i]] + 1,
    ) by {
        assert(listed(order, level, adj[order[i] as int][k], level[order[i]] + 1));
    }
    assert forall|k: int| 0 <= k < done + 1 && k < adj[grown[head] as int].len() implies listed(
        grown,
        deeper,
        #[trigger] adj[grown[head] as int][k],
        deeper[grown[head]] + 1,
    ) by {
        if k < done {
            assert(listed(order, level, adj[order[head] as int][k], level[order[head]] + 1));
        }
    }
}

/// When all neighbours of the vertex at `head` have been looked at, the
/// search moves on to the next discovered vertex.
pub proof fn lemma_advance(
    adj: Seq<Seq<usize>>,
    s: usize,
    order: Seq<usize>,
    head: int,
    level: Map<usize, nat>,
)
    requires
        head < order.len(),
        order[head] < adj.len(),
        search_inv(adj, s, order, head, adj[order[head] as int].len() as int, level),
    ensures
        search_inv(adj, s, order, head + 1, 0, level),
{
    if head + 1 < order.len() {
        assert(level[order[head]] <= level[order[head + 1]]);
    }
    assert forall|i: int, k: int|
        0 <= i < head + 1 && order[i] < adj.len() && 0 <= k < adj[order[i] as int].len() implies listed(
        order,
        level,
        #[trigger] adj[order[i] as int][k],
        level[order[i]] + 1,
    ) by {
        if i == head {
            assert(listed(order, level, adj[order[head] as int][k], level[order[head]] + 1));
        }
    }
}

/// The vertex at `head` becomes the parent of the neighbour that it
/// discovers.
pub proof fn lemma_parent_added(
    adj: Seq<Seq<usize>>,
    s: usize,
    order: Seq<usize>,
    head: int,
    done: int,
    level: Map<usize, nat>,
    parent: Map<usize, usize>,
)
    requires
        search_inv(adj, s, order, head, done, level),
        parents_inv(adj, s, order, level, parent),
        head < order.len(),
        order[head] < adj.len(),
        0 <= done < adj[order[head] as int].len(),
        !order.contains(adj[order[head] as int][done]),
    ensures
        parents_inv(
            adj,
            s,
            order.push(adj[order[head] as int][done]),
            level.insert(adj[order[head] as int][done], level[order[head]] + 1),
            parent.insert(adj[order[head] as int][done], order[head]),
        ),
{
    let cur = order[head];
    let x = adj[cur as int][done];
    let grown = order.push(x);
    let deeper = level.insert(x, level[cur] + 1);
    let linked = parent.insert(x, cur);
    assert(grown[order.len() as int] == x);
    assert(order.contains(s)) by {
        assert(order[0] == s);
    }
    assert(order.contains(cur));
    assert forall|y: usize| order.contains(y) implies grown.contains(y) by {
        let i = choose|i: int| 0 <= i < order.len() && order[i] == y;
        assert(grown[i] == y);
    }
    assert forall|y: usize| grown.contains(y) implies order.contains(y) || y == x by {
        let i = choose|i: int| 0 <= i < grown.len() && grown[i] == y;
        if i < order.len() {
            assert(order[i] == y);
        }
    }
    assert forall|y: usize| #[trigger] linked.contains_key(y) <==> grown.contains(y) && y != s by {
        assert(linked.contains_key(y) <==> parent.contains_key(y) || y == x);
    }
    assert forall|y: usize| #[trigger] linked.contains_key(y) implies {
        &&& grown.contains(linked[y])
        &&& linked[y] < adj.len()
        &&& adj[linked[y] as int].contains(y)
        &&& deeper[y] == deeper[linked[y]] + 1
    } by {
        if y == x {
            assert(adj[cur as int][done] == x);
        } else {
            assert(parent.contains_key(y));
        }
    }
}

/// Looking at one more neighbour of the vertex at `head` leaves routes and
/// parents as they are.
pub proof fn lemma_tie_seen(
    adj: Seq<Seq<usize>>,
    s: usize,
    order: Seq<usize>,
    head: int,
    done: int,
    level: Map<usize, nat>,
    parent: Map<usize, usize>,
    route: Map<usize, Seq<usize>>,
)
    requires
        tie_inv(adj, s, order, head, done, level, parent, route),
        0 <= done,
    ensures
        tie_inv(adj, s, order, head, done + 1, level, parent, route),
{
    assert forall|i: int| 0 < i < order.len() implies via(
        adj,
        order,
        head,
        done + 1,
        parent[order[i]],
        #[trigger] order[i],
    ) by {
        assert(via(adj, order, head, done, parent[order[i]], order[i]));
    }
}

/// When the search moves on, the vertex that had its turn has had it.
pub proof fn lemma_tie_advance(
    adj: Seq<Seq<usize>>,
    s: usize,
    order: Seq<usize>,
    head: int,
    done: int,
    level: Map<usize, nat>,
    parent: Map<usize, usize>,
    route: Map<usize, Seq<usize>>,
)
    requires
        tie_inv(adj, s, order, head, done, level, parent, route),
        0 <= head < order.len(),
    ensures
        tie_inv(adj, s, order, head + 1, 0, level, parent, route),
{
    assert forall|i: int| 0 < i < order.len() implies via(
        adj,
        order,
        head + 1,
        0,
        parent[order[i]],
        #[trigger] order[i],
    ) by {
        assert(via(adj, order, head, done, parent[order[i]], order[i]));
        if !(exists|ip: int| 0 <= ip < head && ip < order.len() && #[trigger] order[ip]
            == parent[order[i]]) {
            assert(order[head] == parent[order[i]]);
        }
    }
}

/// No walk of as many vertices as the new vertex's level asks comes before
/// the route over the vertex that discovers it.
pub proof fn lemma_new_route_least(
    adj: Seq<Seq<usize>>,
    s: usize,
    order: Seq<usize>,
    head: int,
    done: int,
    level: Map<usize, nat>,
    parent: Map<usize, usize>,
    route: Map<usize, Seq<usize>>,
    q: Seq<usize>,
)
    requires
        search_inv(adj, s, order, head, done, level),
        tie_inv(adj, s, order, head, done, level, parent, route),
        head < order.len(),
        order[head] < adj.len(),
        0 <= done < adj[order[head] as int].len(),
        !order.contains(adj[order[head] as int][done]),
        connects(adj, q, s, adj[order[head] as int][done]),
        q.len() == level[order[head]] + 2,
    ensures
        not_after(route[order[head]].push(adj[order[head] as int][done]), q),
{
    let cur = order[head];
    let x = adj[cur as int][done];
    let before = q.drop_last();
    let u = before[before.len() - 1];
    assert forall|i: int| 0 <= i < before.len() - 1 implies (#[trigger] before[i]) < adj.len()
        && adj[before[i] as int].contains(before[i + 1]) by {
        assert(before[i] == q[i] && before[i + 1] == q[i + 1]);
    }
    assert(connects(adj, before, s, u));
    lemma_walk_level(adj, s, order, head, done, level, before, before.len() - 1);
    let iu = choose|iu: int| 0 <= iu < order.len() && order[iu] == u;
    assert(u == q[q.len() - 2]);
    assert(u < adj.len() && adj[u as int].contains(q[q.len() - 2 + 1]));
    if iu < head {
        let k = choose|k: int| 0 <= k < adj[u as int].len() && adj[u as int][k] == x;
        assert(listed(order, level, adj[order[iu] as int][k], level[order[iu]] + 1));
    }
    assert(level[order[head]] <= level[order[iu]]);
    assert(routed(adj, s, level, route, order[iu]));
    assert(not_after(route[u], before));
    assert(before.push(x) =~= q);
    if iu == head {
        lemma_not_after_push(route[cur], before, x);
    } else {
        assert(precedes(route[order[head]], route[order[iu]]));
        lemma_precedes_trans(route[cur], route[u], before);
        lemma_precedes_push(route[cur], before, x, x);
    }
}

/// The route to a new vertex comes after the routes to all that were
/// discovered before on its level: their parents had their turn before, or
/// they were listed before by the parent that they share with it.
pub proof fn lemma_new_route_after(
    adj: Seq<Seq<usize>>,
    s: usize,
    order: Seq<usize>,
    head: int,
    done: int,
    level: Map<usize, nat>,
    parent: Map<usize, usize>,
    route: Map<usize, Seq<usize>>,
    i: int,
)
    requires
        ascending_lists(adj),
        search_inv(adj, s, order, head, done, level),
        parents_inv(adj, s, order, level, parent),
        tie_inv(adj, s, order, head, done, level, parent, route),
        head < order.len(),
        order[head] < adj.len(),
        0 <= done < adj[order[head] as int].len(),
        !order.contains(adj[order[head] as int][done]),
        0 <= i < order.len(),
        level[order[i]] == level[order[head]] + 1,
    ensures
        precedes(route[order[i]], route[order[head]].push(adj[order[head] as int][done])),
{
    let cur = order[head];
    let x = adj[cur as int][done];
    let y = order[i];
    assert(order.contains(y));
    assert(level[s] == 0);
    assert(i > 0);
    assert(order[i] != order[0]);
    let p = parent[y];
    assert(parent.contains_key(y));
    assert(level[p] == level[cur]);
    assert(route_link(parent, route, order[i]));
    assert(via(adj, order, head, done, p, order[i]));
    if exists|ip: int| 0 <= ip < head && ip < order.len() && #[trigger] order[ip] == p {
        let ip = choose|ip: int| 0 <= ip < head && ip < order.len() && #[trigger] order[ip] == p;
        assert(level[order[ip]] == level[order[head]]);
        assert(precedes(route[order[ip]], route[order[head]]));
        lemma_precedes_push(route[p], route[cur], y, x);
    } else {
        let k = choose|k: int|
            0 <= k < done && k < adj[p as int].len() && #[trigger] adj[p as int][k] == y;
        assert(ascending(adj[cur as int]));
        assert(adj[cur as int][k] <= adj[cur as int][done]);
        lemma_precedes_last(route[cur], y, x);
    }
}

/// The route of a new vertex leads over the vertex that discovers it, and
/// comes after the routes of all that were discovered before on its level.
pub proof fn lemma_tie_discover(
    adj: Seq<Seq<usize>>,
    s: usize,
    order: Seq<usize>,
    head: int,
    done: int,
    level: Map<usize, nat>,
    parent: Map<usize, usize>,
    route: Map<usize, Seq<usize>>,
)
    requires
        ascending_lists(adj),
        search_inv(adj, s, order, head, done, level),
        parents_inv(adj, s, order, level, parent),
        tie_inv(adj, s, order, head, done, level, parent, route),
        head < order.len(),
        order[head] < adj.len(),
        0 <= done < adj[order[head] as int].len(),
        !order.contains(adj[order[head] as int][done]),
    ensures
        tie_inv(
            adj,
            s,
            order.push(adj[order[head] as int][done]),
            head,
            done + 1,
            level.insert(adj[order[head] as int][done], level[order[head]] + 1),
            parent.insert(adj[order[head] as int][done], order[head]),
            route.insert(
                adj[order[head] as int][done],
                route[order[head]].push(adj[order[head] as int][done]),
            ),
        ),
{
    let cur = order[head];
    let x = adj[cur as int][done];
    let grown = order.push(x);
    let deeper = level.insert(x, level[cur] + 1);
    let linked = parent.insert(x, cur);
    let routes = route.insert(x, route[cur].push(x));
    let last = order.len() as int;
    assert(grown[last] == x);
    assert(order.contains(cur));
    assert(routed(adj, s, level, route, order[head]));
    assert forall|i: int| 0 <= i < last implies grown[i] == order[i] && order[i] != x
        && deeper[order[i]] == level[order[i]] && routes[order[i]] == route[order[i]] && (i > 0
        ==> linked[order[i]] == parent[order[i]] && parent[order[i]] != x && parent.contains_key(
        order[i],
    )) by {
        assert(order.contains(order[i]));
        if i > 0 {
            assert(order[i] != order[0]);
            assert(parent.contains_key(order[i]));
        }
    }
    assert(order[0] == s);
    // the new vertex has a route
    let fresh = route[cur].push(x);
    assert forall|i: int| 0 <= i < fresh.len() - 1 implies (#[trigger] fresh[i]) < adj.len()
        && adj[fresh[i] as int].contains(fresh[i + 1]) by {
        if i < route[cur].len() - 1 {
            assert(fresh[i] == route[cur][i] && fresh[i + 1] == route[cur][i + 1]);
        }
    }
    assert(connects(adj, fresh, s, x));
    assert forall|q: Seq<usize>| #[trigger]
        connects(adj, q, s, x) && q.len() == deeper[x] + 1 implies not_after(routes[x], q) by {
        lemma_new_route_least(adj, s, order, head, done, level, parent, route, q);
    }
    assert(routed(adj, s, deeper, routes, x));
    assert forall|i: int| 0 <= i < grown.len() implies routed(
        adj,
        s,
        deeper,
        routes,
        #[trigger] grown[i],
    ) by {
        if i < last {
            assert(routed(adj, s, level, route, order[i]));
        }
    }
    assert forall|i: int| 0 < i < grown.len() implies route_link(
        linked,
        routes,
        #[trigger] grown[i],
    ) by {
        if i < last {
            assert(route_link(parent, route, order[i]));
        }
    }
    assert forall|i: int| 0 < i < grown.len() implies via(
        adj,
        grown,
        head,
        done + 1,
        linked[grown[i]],
        #[trigger] grown[i],
    ) by {
        if i < last {
            let p = parent[order[i]];
            assert(via(adj, order, head, done, p, order[i]));
            if exists|ip: int| 0 <= ip < head && ip < order.len() && #[trigger] order[ip] == p {
                let ip = choose|ip: int|
                    0 <= ip < head && ip < order.len() && #[trigger] order[ip] == p;
                assert(grown[ip] == p);
            }
        } else {
            assert(adj[cur as int][done] == x);
        }
    }
    assert forall|i: int, j: int|
        #![trigger grown[i], grown[j]]
        0 <= i < j < grown.len() && deeper[grown[i]] == deeper[grown[j]] implies precedes(
        routes[grown[i]],
        routes[grown[j]],
    ) by {
        if j < last {
            assert(level[order[i]] == level[order[j]]);
            assert(precedes(route[order[i]], route[order[j]]));
        } else {
            lemma_new_route_after(adj, s, order, head, done, level, parent, route, i);
        }
    }
}

/// A search starts with its start vertex discovered and nothing looked at.
pub proof fn lemma_start(adj: Seq<Seq<usize>>, s: usize)
    ensures
        search_inv(adj, s, seq![s], 0, 0, map![s => 0nat]),
        parents_inv(adj, s, seq![s], map![s => 0nat], Map::empty()),
        tie_inv(adj, s, seq![s], 0, 0, map![s => 0nat], Map::empty(), map![s => seq![s]]),
{
    let order = seq![s];
    let level = map![s => 0nat];
    let route = map![s => seq![s]];
    assert(connects(adj, seq![s], s, s));
    assert forall|q: Seq<usize>| #[trigger]
        connects(adj, q, s, s) && q.len() == level[s] + 1 implies not_after(route[s], q) by {
        assert(q =~= seq![s]);
    }
    assert(routed(adj, s, level, route, s));
}

/// A search that has run out has discovered every vertex that a walk from
/// its start reaches.
pub proof fn lemma_exhausted(
    adj: Seq<Seq<usize>>,
    s: usize,
    e: usize,
    order: Seq<usize>,
    level: Map<usize, nat>,
)
    requires
        search_inv(adj, s, order, order.len() as int, 0, level),
        !order.contains(e),
    ensures
        !reachable(adj, s, e),
{
    assert forall|q: Seq<usize>| !connects(adj, q, s, e) by {
        if connects(adj, q, s, e) {
            lemma_walk_stays(adj, s, order, level, q, q.len() - 1);
        }
    }
}

/// The vertex whose turn it is lies in the graph, unless it is a start
/// outside of it, which is then the end as well.
pub proof fn lemma_turn(
    adj: Seq<Seq<usize>>,
    s: usize,
    order: Seq<usize>,
    head: int,
    level: Map<usize, nat>,
)
    requires
        search_inv(adj, s, order, head, 0, level),
        head < order.len(),
    ensures
        order.len() <= adj.len() + 1,
        order[head] == s || order[head] < adj.len(),
        level[s] == 0,
{
    lemma_order_bounded(adj, s, order, head, 0, level);
}

/// A discovered vertex has a parent unless it is the start; the parent is a
/// discovered vertex one level up that lists it.
pub proof fn lemma_parent_step(
    adj: Seq<Seq<usize>>,
    s: usize,
    order: Seq<usize>,
    level: Map<usize, nat>,
    parent: Map<usize, usize>,
    x: usize,
)
    requires
        parents_inv(adj, s, order, level, parent),
        order.contains(x),
    ensures
        parent.contains_key(x) <==> x != s,
        parent.contains_key(x) ==> {
            &&& order.contains(parent[x])
            &&& parent[x] < adj.len()
            &&& adj[parent[x] as int].contains(x)
            &&& level[x] == level[parent[x]] + 1
        },
{
}

/// The route to a discovered vertex ends in it, and leads over its parent
/// where it has one.
pub proof fn lemma_route_step(
    adj: Seq<Seq<usize>>,
    s: usize,
    order: Seq<usize>,
    head: int,
    done: int,
    level: Map<usize, nat>,
    parent: Map<usize, usize>,
    route: Map<usize, Seq<usize>>,
    x: usize,
)
    requires
        search_inv(adj, s, order, head, done, level),
        tie_inv(adj, s, order, head, done, level, parent, route),
        order.contains(x),
    ensures
        route[s] == seq![s],
        route[x].len() > 0,
        route[x][route[x].len() - 1] == x,
        x != s ==> route[x] == route[parent[x]].push(x),
{
    let i = choose|i: int| 0 <= i < order.len() && order[i] == x;
    assert(routed(adj, s, level, route, order[i]));
    if x != s {
        assert(route_link(parent, route, order[i]));
    }
}

/// A walk to the vertex whose turn it is, of as many vertices as its level
/// asks, is a shortest one.
pub proof fn lemma_found(
    adj: Seq<Seq<usize>>,
    s: usize,
    order: Seq<usize>,
    head: int,
    level: Map<usize, nat>,
    path: Seq<usize>,
)
    requires
        search_inv(adj, s, order, head, 0, level),
        head < order.len(),
        connects(adj, path, s, order[head]),
        path.len() == level[order[head]] + 1,
    ensures
        shortest(adj, path, s, order[head]),
        s == order[head] ==> path == seq![s],
{
    let e = order[head];
    assert forall|q: Seq<usize>| #[trigger] connects(adj, q, s, e) implies path.len()
        <= q.len() by {
        if q.len() < path.len() {
            lemma_walk_level(adj, s, order, head, 0, level, q, q.len() - 1);
        }
    }
    if s == e {
        assert(path =~= seq![s]);
    }
}

/// The route to the vertex whose turn it is is the first of the shortest
/// walks to it.
pub proof fn lemma_found_first(
    adj: Seq<Seq<usize>>,
    s: usize,
    order: Seq<usize>,
    head: int,
    level: Map<usize, nat>,
    parent: Map<usize, usize>,
    route: Map<usize, Seq<usize>>,
)
    requires
        search_inv(adj, s, order, head, 0, level),
        tie_inv(adj, s, order, head, 0, level, parent, route),
        head < order.len(),
        shortest(adj, route[order[head]], s, order[head]),
    ensures
        first_shortest(adj, route[order[head]], s, order[head]),
{
    let e = order[head];
    assert(routed(adj, s, level, route, order[head]));
    assert forall|q: Seq<usize>| #[trigger] shortest(adj, q, s, e) implies not_after(
        route[e],
        q,
    ) by {
        assert(connects(adj, q, s, e));
        assert(connects(adj, route[e], s, e));
    }
}

} // verus!
