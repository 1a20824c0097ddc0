//! Walks, reachability and cycles in a directed graph given by its edges, and the facts about
//! them that the lifecycle cascades rely on.

use crate::graph::Edge;
use vstd::prelude::*;

verus! {

/// `p` is a walk along at least one edge: each node is joined to the next by an edge.
pub open spec fn is_walk(edges: Map<Edge, usize>, p: Seq<u64>) -> bool {
    &&& p.len() >= 2
    &&& forall|i: int| 0 <= i < p.len() - 1 ==> #[trigger] edges.contains_key((p[i], p[i + 1]))
}

/// `b` can be reached from `a` along at least one edge.
pub open spec fn reaches(edges: Map<Edge, usize>, a: u64, b: u64) -> bool {
    exists|p: Seq<u64>| is_walk(edges, p) && p.first() == a && p.last() == b
}

/// `b` is `a` itself or can be reached from it.
pub open spec fn reaches_or_eq(edges: Map<Edge, usize>, a: u64, b: u64) -> bool {
    a == b || reaches(edges, a, b)
}

/// Some node can be reached from itself along at least one edge.
pub open spec fn has_cycle(edges: Map<Edge, usize>) -> bool {
    exists|a: u64| reaches(edges, a, a)
}

/// Every edge starts and ends at a node of `nodes`.
pub open spec fn edges_within(edges: Map<Edge, usize>, nodes: Set<u64>) -> bool {
    forall|e: Edge| #[trigger] edges.contains_key(e) ==> nodes.contains(e.0) && nodes.contains(e.1)
}

/// The nodes that can be reached from `a`.
pub open spec fn descendants(edges: Map<Edge, usize>, nodes: Set<u64>, a: u64) -> Set<u64> {
    nodes.filter(|x: u64| reaches(edges, a, x))
}

/// The nodes from which `a` can be reached.
pub open spec fn ancestors(edges: Map<Edge, usize>, nodes: Set<u64>, a: u64) -> Set<u64> {
    nodes.filter(|x: u64| reaches(edges, x, a))
}

/// A single edge is a walk.
pub proof fn lemma_edge_reaches(edges: Map<Edge, usize>, a: u64, b: u64)
    requires
        edges.contains_key((a, b)),
    ensures
        reaches(edges, a, b),
{
    let p = seq![a, b];
    assert(is_walk(edges, p)) by {
        assert forall|i: int| 0 <= i < p.len() - 1 implies #[trigger] edges.contains_key(
            (p[i], p[i + 1]),
        ) by {
            assert(i == 0);
        }
    }
    assert(p.first() == a && p.last() == b);
}

/// Walks compose.
pub proof fn lemma_reaches_trans(edges: Map<Edge, usize>, a: u64, b: u64, c: u64)
    requires
        reaches(edges, a, b),
        reaches(edges, b, c),
    ensures
        reaches(edges, a, c),
{
    let p = choose|p: Seq<u64>| is_walk(edges, p) && p.first() == a && p.last() == b;
    let q = choose|q: Seq<u64>| is_walk(edges, q) && q.first() == b && q.last() == c;
    let r = p + q.drop_first();
    assert(is_walk(edges, r)) by {
        assert forall|i: int| 0 <= i < r.len() - 1 implies #[trigger] edges.contains_key(
            (r[i], r[i + 1]),
        ) by {
            if i < p.len() - 1 {
                assert(edges.contains_key((p[i], p[i + 1])));
            } else {
                let j = i - p.len() + 1;
                assert(edges.contains_key((q[j], q[j + 1])));
                if j == 0 {
                    assert(r[i] == p.last());
                }
            }
        }
    }
    assert(r.first() == a && r.last() == c);
}

/// Reaching through `reaches_or_eq` on either side composes with an edge.
pub proof fn lemma_step_then_reach(edges: Map<Edge, usize>, a: u64, m: u64, b: u64)
    requires
        edges.contains_key((a, m)),
        reaches_or_eq(edges, m, b),
    ensures
        reaches(edges, a, b),
{
    lemma_edge_reaches(edges, a, m);
    if m != b {
        lemma_reaches_trans(edges, a, m, b);
    }
}

/// Reaching composes with a final edge.
pub proof fn lemma_reach_then_step(edges: Map<Edge, usize>, a: u64, m: u64, b: u64)
    requires
        reaches_or_eq(edges, a, m),
        edges.contains_key((m, b)),
    ensures
        reaches(edges, a, b),
{
    lemma_edge_reaches(edges, m, b);
    if a != m {
        lemma_reaches_trans(edges, a, m, b);
    }
}

/// A walk begins with an edge, after which the goal is reached or already there.
pub proof fn lemma_first_step(edges: Map<Edge, usize>, a: u64, b: u64) -> (m: u64)
    requires
        reaches(edges, a, b),
    ensures
        edges.contains_key((a, m)),
        reaches_or_eq(edges, m, b),
{
    let p = choose|p: Seq<u64>| is_walk(edges, p) && p.first() == a && p.last() == b;
    assert(edges.contains_key((p[0int], p[0int + 1])));
    let m = p[1];
    if p.len() > 2 {
        let q = p.drop_first();
        assert(is_walk(edges, q)) by {
            assert forall|i: int| 0 <= i < q.len() - 1 implies #[trigger] edges.contains_key(
                (q[i], q[i + 1]),
            ) by {
                assert(edges.contains_key((p[i + 1], p[i + 1 + 1])));
            }
        }
        assert(q.first() == m && q.last() == b);
    }
    m
}

/// A walk ends with an edge, before which the start has been left or not.
pub proof fn lemma_last_step(edges: Map<Edge, usize>, a: u64, b: u64) -> (m: u64)
    requires
        reaches(edges, a, b),
    ensures
        reaches_or_eq(edges, a, m),
        edges.contains_key((m, b)),
{
    let p = choose|p: Seq<u64>| is_walk(edges, p) && p.first() == a && p.last() == b;
    let n = p.len() as int;
    assert(edges.contains_key((p[n - 2], p[n - 2 + 1])));
    let m = p[n - 2];
    if p.len() > 2 {
        let q = p.drop_last();
        assert(is_walk(edges, q)) by {
            assert forall|i: int| 0 <= i < q.len() - 1 implies #[trigger] edges.contains_key(
                (q[i], q[i + 1]),
            ) by {
                assert(edges.contains_key((p[i], p[i + 1])));
            }
        }
        assert(q.first() == a && q.last() == m);
    }
    m
}

/// A graph with fewer edges reaches no more.
pub proof fn lemma_reaches_monotone(small: Map<Edge, usize>, big: Map<Edge, usize>, a: u64, b: u64)
    requires
        small.dom().subset_of(big.dom()),
        reaches(small, a, b),
    ensures
        reaches(big, a, b),
{
    let p = choose|p: Seq<u64>| is_walk(small, p) && p.first() == a && p.last() == b;
    assert(is_walk(big, p)) by {
        assert forall|i: int| 0 <= i < p.len() - 1 implies #[trigger] big.contains_key(
            (p[i], p[i + 1]),
        ) by {
            assert(small.contains_key((p[i], p[i + 1])));
        }
    }
}

/// A graph with fewer edges than one without a cycle has no cycle either.
pub proof fn lemma_subgraph_acyclic(small: Map<Edge, usize>, big: Map<Edge, usize>)
    requires
        small.dom().subset_of(big.dom()),
        !has_cycle(big),
    ensures
        !has_cycle(small),
{
    if has_cycle(small) {
        let a = choose|a: u64| reaches(small, a, a);
        lemma_reaches_monotone(small, big, a, a);
    }
}

/// Without a cycle, what a plugin requires has strictly fewer descendants than the plugin.
pub proof fn lemma_descendants_decrease(edges: Map<Edge, usize>, nodes: Set<u64>, a: u64, b: u64)
    requires
        nodes.finite(),
        edges_within(edges, nodes),
        !has_cycle(edges),
        edges.contains_key((a, b)),
    ensures
        descendants(edges, nodes, b).len() < descendants(edges, nodes, a).len(),
{
    let da = descendants(edges, nodes, a);
    let db = descendants(edges, nodes, b);
    lemma_edge_reaches(edges, a, b);
    assert(da.contains(b));
    assert(!db.contains(b));
    assert forall|x: u64| db.contains(x) implies da.remove(b).contains(x) by {
        lemma_reaches_trans(edges, a, b, x);
    }
    vstd::set_lib::lemma_len_subset(db, da.remove(b));
}

/// Without a cycle, a dependent of a plugin has strictly fewer ancestors than the plugin.
pub proof fn lemma_ancestors_decrease(edges: Map<Edge, usize>, nodes: Set<u64>, a: u64, b: u64)
    requires
        nodes.finite(),
        edges_within(edges, nodes),
        !has_cycle(edges),
        edges.contains_key((a, b)),
    ensures
        ancestors(edges, nodes, a).len() < ancestors(edges, nodes, b).len(),
{
    let aa = ancestors(edges, nodes, a);
    let ab = ancestors(edges, nodes, b);
    lemma_edge_reaches(edges, a, b);
    assert(ab.contains(a));
    assert(!aa.contains(a));
    assert forall|x: u64| aa.contains(x) implies ab.remove(a).contains(x) by {
        lemma_reaches_trans(edges, x, a, b);
    }
    vstd::set_lib::lemma_len_subset(aa, ab.remove(a));
}

/// In `list`, whoever requires another entry comes before it: no entry can be reached from a
/// later one.
pub open spec fn dependents_first(edges: Map<Edge, usize>, list: Seq<u64>) -> bool {
    forall|i: int, j: int| 0 <= i < j < list.len() ==> !reaches(edges, list[j], list[i])
}

/// `x` is, or reaches, one of the `targets` from position `from` on.
pub open spec fn reaches_any(
    edges: Map<Edge, usize>,
    x: u64,
    targets: Seq<(u64, usize)>,
    from: int,
) -> bool {
    exists|j: int| from <= j < targets.len() && reaches_or_eq(edges, x, (#[trigger] targets[j]).0)
}

/// `id` and every node that reaches it: a plugin with all that require it, directly or
/// through others.
pub open spec fn requiring(edges: Map<Edge, usize>, id: u64) -> Set<u64> {
    Set::new(|x: u64| reaches_or_eq(edges, x, id))
}

/// `id` and every node that it reaches: a plugin with all that it requires, directly or
/// through others.
pub open spec fn required_by(edges: Map<Edge, usize>, id: u64) -> Set<u64> {
    Set::new(|x: u64| reaches_or_eq(edges, id, x))
}

/// The nodes that are, or reach, one of the `targets` from position `from` on.
pub open spec fn requiring_any(edges: Map<Edge, usize>, targets: Seq<(u64, usize)>, from: int) -> Set<
    u64,
> {
    Set::new(|x: u64| reaches_any(edges, x, targets, from))
}

/// `x` is, or is reached from, one of the `targets` before position `upto`.
pub open spec fn reached_from_any(
    edges: Map<Edge, usize>,
    targets: Seq<(u64, usize)>,
    upto: int,
    x: u64,
) -> bool {
    exists|j: int| 0 <= j < upto && reaches_or_eq(edges, (#[trigger] targets[j]).0, x)
}

/// The nodes that are, or are reached from, one of the `targets` before position `upto`.
pub open spec fn required_by_any(edges: Map<Edge, usize>, targets: Seq<(u64, usize)>, upto: int) -> Set<
    u64,
> {
    Set::new(|x: u64| reached_from_any(edges, targets, upto, x))
}

/// One more target at the end.
pub proof fn lemma_reached_from_any_step(
    edges: Map<Edge, usize>,
    targets: Seq<(u64, usize)>,
    upto: int,
    x: u64,
)
    requires
        0 <= upto < targets.len(),
    ensures
        reached_from_any(edges, targets, upto + 1, x) <==> (reached_from_any(
            edges,
            targets,
            upto,
            x,
        ) || reaches_or_eq(edges, targets[upto].0, x)),
{
    if reached_from_any(edges, targets, upto + 1, x) {
        let j = choose|j: int|
            0 <= j < upto + 1 && reaches_or_eq(edges, (#[trigger] targets[j]).0, x);
        if j < upto {
            assert(0 <= j < upto && reaches_or_eq(edges, targets[j].0, x));
        }
    }
    if reached_from_any(edges, targets, upto, x) {
        let j = choose|j: int| 0 <= j < upto && reaches_or_eq(edges, (#[trigger] targets[j]).0, x);
        assert(0 <= j < upto + 1 && reaches_or_eq(edges, targets[j].0, x));
    }
    if reaches_or_eq(edges, targets[upto].0, x) {
        assert(0 <= upto < upto + 1 && reaches_or_eq(edges, targets[upto].0, x));
    }
}

/// One more target in front.
pub proof fn lemma_reaches_any_step(
    edges: Map<Edge, usize>,
    x: u64,
    targets: Seq<(u64, usize)>,
    from: int,
)
    requires
        0 <= from < targets.len(),
    ensures
        reaches_any(edges, x, targets, from) <==> (reaches_or_eq(edges, x, targets[from].0)
            || reaches_any(edges, x, targets, from + 1)),
{
    if reaches_any(edges, x, targets, from) {
        let j = choose|j: int|
            from <= j < targets.len() && reaches_or_eq(edges, x, (#[trigger] targets[j]).0);
        if j > from {
            assert(from + 1 <= j < targets.len() && reaches_or_eq(edges, x, targets[j].0));
        }
    }
    if reaches_any(edges, x, targets, from + 1) {
        let j = choose|j: int|
            from + 1 <= j < targets.len() && reaches_or_eq(edges, x, (#[trigger] targets[j]).0);
        assert(from <= j < targets.len() && reaches_or_eq(edges, x, targets[j].0));
    }
    if reaches_or_eq(edges, x, targets[from].0) {
        assert(from <= from < targets.len() && reaches_or_eq(edges, x, targets[from].0));
    }
}

/// Whatever reaches a node that reaches a target reaches the target.
pub proof fn lemma_reaches_any_up(
    edges: Map<Edge, usize>,
    x: u64,
    y: u64,
    targets: Seq<(u64, usize)>,
    from: int,
)
    requires
        reaches(edges, x, y),
        reaches_any(edges, y, targets, from),
    ensures
        reaches_any(edges, x, targets, from),
{
    let j = choose|j: int|
        from <= j < targets.len() && reaches_or_eq(edges, y, (#[trigger] targets[j]).0);
    if y != targets[j].0 {
        lemma_reaches_trans(edges, x, y, targets[j].0);
    }
    assert(reaches_or_eq(edges, x, targets[j].0));
}

/// Where `sources` are the nodes with an edge to `b`: whatever reaches `b` is, or reaches, one
/// of them, and the other way round.
pub proof fn lemma_reaches_through_source(
    edges: Map<Edge, usize>,
    x: u64,
    b: u64,
    sources: Seq<(u64, usize)>,
)
    requires
        forall|a: u64, w: usize|
            #[trigger] sources.contains((a, w)) <==> (edges.contains_key((a, b)) && edges[(a, b)]
                == w),
    ensures
        reaches(edges, x, b) <==> reaches_any(edges, x, sources, 0),
{
    if reaches(edges, x, b) {
        let m = lemma_last_step(edges, x, b);
        assert(sources.contains((m, edges[(m, b)])));
        let j = choose|j: int| 0 <= j < sources.len() && sources[j] == (m, edges[(m, b)]);
        assert(reaches_or_eq(edges, x, sources[j].0));
    }
    if reaches_any(edges, x, sources, 0) {
        let j = choose|j: int|
            0 <= j < sources.len() && reaches_or_eq(edges, x, (#[trigger] sources[j]).0);
        let entry = sources[j];
        assert(sources.contains((entry.0, entry.1)));
        lemma_reach_then_step(edges, x, entry.0, b);
    }
}

/// Where `targets` are the nodes with an edge from `a`: whatever `a` reaches is one of them or
/// reached from one, and the other way round.
pub proof fn lemma_reaches_through_target(
    edges: Map<Edge, usize>,
    a: u64,
    x: u64,
    targets: Seq<(u64, usize)>,
)
    requires
        forall|b: u64, w: usize|
            #[trigger] targets.contains((b, w)) <==> (edges.contains_key((a, b)) && edges[(a, b)]
                == w),
    ensures
        reaches(edges, a, x) <==> reached_from_any(edges, targets, targets.len() as int, x),
{
    if reaches(edges, a, x) {
        let m = lemma_first_step(edges, a, x);
        assert(targets.contains((m, edges[(a, m)])));
        let j = choose|j: int| 0 <= j < targets.len() && targets[j] == (m, edges[(a, m)]);
        assert(reaches_or_eq(edges, targets[j].0, x));
    }
    if exists|j: int| 0 <= j < targets.len() && reaches_or_eq(edges, (#[trigger] targets[j]).0, x) {
        let j = choose|j: int|
            0 <= j < targets.len() && reaches_or_eq(edges, (#[trigger] targets[j]).0, x);
        let entry = targets[j];
        assert(targets.contains((entry.0, entry.1)));
        lemma_step_then_reach(edges, a, entry.0, x);
    }
}

/// A set that holds, with each member, what the member requires also holds whatever the
/// member reaches.
pub proof fn lemma_closed_reaches(edges: Map<Edge, usize>, members: Set<u64>, a: u64, b: u64)
    requires
        forall|x: u64, y: u64|
            members.contains(x) && #[trigger] edges.contains_key((x, y)) ==> members.contains(y),
        members.contains(a),
        reaches(edges, a, b),
    ensures
        members.contains(b),
{
    let p = choose|p: Seq<u64>| is_walk(edges, p) && p.first() == a && p.last() == b;
    lemma_closed_along(edges, members, p, p.len() - 1);
}

/// Along a walk that starts in such a set, every node is in the set.
pub proof fn lemma_closed_along(edges: Map<Edge, usize>, members: Set<u64>, p: Seq<u64>, k: int)
    requires
        forall|x: u64, y: u64|
            members.contains(x) && #[trigger] edges.contains_key((x, y)) ==> members.contains(y),
        is_walk(edges, p),
        members.contains(p.first()),
        0 <= k < p.len(),
    ensures
        members.contains(p[k]),
    decreases k,
{
    if k > 0 {
        lemma_closed_along(edges, members, p, k - 1);
        assert(edges.contains_key((p[k - 1], p[k - 1 + 1])));
    }
}

/// What a concatenation holds.
pub proof fn lemma_concat_contains(done: Seq<u64>, part: Seq<u64>)
    ensures
        forall|x: u64|
            #[trigger] (done + part).contains(x) <==> (done.contains(x) || part.contains(x)),
{
    let all = done + part;
    assert forall|x: u64| all.contains(x) <==> (done.contains(x) || part.contains(x)) by {
        if all.contains(x) {
            let i = choose|i: int| 0 <= i < all.len() && all[i] == x;
            if i < done.len() {
                assert(done[i] == x);
            } else {
                assert(part[i - done.len()] == x);
            }
        }
        if done.contains(x) {
            let i = choose|i: int| 0 <= i < done.len() && done[i] == x;
            assert(all[i] == x);
        }
        if part.contains(x) {
            let i = choose|i: int| 0 <= i < part.len() && part[i] == x;
            assert(all[done.len() + i] == x);
        }
    }
}

/// What a list holds after one more entry.
pub proof fn lemma_push_contains(done: Seq<u64>, id: u64)
    ensures
        forall|x: u64| #[trigger] done.push(id).contains(x) <==> (done.contains(x) || x == id),
{
    let all = done.push(id);
    assert forall|x: u64| all.contains(x) <==> (done.contains(x) || x == id) by {
        if all.contains(x) {
            let i = choose|i: int| 0 <= i < all.len() && all[i] == x;
            if i < done.len() {
                assert(done[i] == x);
            }
        }
        if done.contains(x) {
            let i = choose|i: int| 0 <= i < done.len() && done[i] == x;
            assert(all[i] == x);
        }
        assert(all[done.len() as int] == id);
    }
}

/// Two cascades in a row form one: the first stays within `covered`, a set that holds
/// whatever reaches a member, and the second stays outside it.
pub proof fn lemma_concat_cascade(
    edges: Map<Edge, usize>,
    done: Seq<u64>,
    part: Seq<u64>,
    covered: Set<u64>,
)
    requires
        done.no_duplicates(),
        part.no_duplicates(),
        dependents_first(edges, done),
        dependents_first(edges, part),
        forall|x: u64| done.contains(x) ==> covered.contains(x),
        forall|x: u64| part.contains(x) ==> !covered.contains(x),
        forall|x: u64, y: u64| covered.contains(y) && reaches(edges, x, y) ==> covered.contains(x),
    ensures
        (done + part).no_duplicates(),
        dependents_first(edges, done + part),
{
    let all = done + part;
    assert forall|i: int, j: int| 0 <= i < j < all.len() implies all[i] != all[j] by {
        if j >= done.len() && i < done.len() {
            assert(done.contains(done[i]));
            assert(part.contains(part[j - done.len()]));
        }
    }
    assert forall|i: int, j: int| 0 <= i < j < all.len() implies !reaches(
        edges,
        all[j],
        all[i],
    ) by {
        if j < done.len() {
            assert(!reaches(edges, done[j], done[i]));
        } else if i >= done.len() {
            assert(!reaches(edges, part[j - done.len()], part[i - done.len()]));
        } else {
            assert(done.contains(done[i]));
            assert(part.contains(part[j - done.len()]));
        }
    }
    lemma_ordered_distinct(all);
}

/// A cascade ends with the plugin it was started for, which none of the others is required by.
pub proof fn lemma_push_cascade(edges: Map<Edge, usize>, done: Seq<u64>, id: u64)
    requires
        done.no_duplicates(),
        dependents_first(edges, done),
        !done.contains(id),
        forall|x: u64| done.contains(x) ==> !reaches(edges, id, x),
    ensures
        done.push(id).no_duplicates(),
        dependents_first(edges, done.push(id)),
{
    let all = done.push(id);
    assert forall|i: int, j: int| 0 <= i < j < all.len() implies all[i] != all[j] by {
        if j >= done.len() {
            assert(done.contains(done[i]));
        }
    }
    assert forall|i: int, j: int| 0 <= i < j < all.len() implies !reaches(
        edges,
        all[j],
        all[i],
    ) by {
        if j < done.len() {
            assert(!reaches(edges, done[j], done[i]));
        } else {
            assert(done.contains(done[i]));
        }
    }
    lemma_ordered_distinct(all);
}

/// A list whose entries differ pairwise, earlier from later, holds nothing twice.
pub proof fn lemma_ordered_distinct(all: Seq<u64>)
    requires
        forall|i: int, j: int| 0 <= i < j < all.len() ==> all[i] != all[j],
    ensures
        all.no_duplicates(),
{
    assert forall|i: int, j: int| 0 <= i < all.len() && 0 <= j < all.len() && i != j implies all[i]
        != all[j] by {
        if i < j {
            assert(all[i] != all[j]);
        } else {
            assert(all[j] != all[i]);
        }
    }
}

} // verus!
