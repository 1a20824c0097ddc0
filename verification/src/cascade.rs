//! The order in which a cascade takes plugins down: a plugin goes after everything that
//! requires it, and those that require it go in reverse visiting order.

use crate::deps::dependents_of;
use crate::deps::lists_edges_into;
use crate::graph::Edge;
use crate::reach::ancestors;
use crate::reach::dependents_first;
use crate::reach::edges_within;
use crate::reach::has_cycle;
use crate::reach::lemma_ancestors_decrease;
use crate::reach::lemma_concat_cascade;
use crate::reach::lemma_concat_contains;
use crate::reach::lemma_edge_reaches;
use crate::reach::lemma_push_cascade;
use crate::reach::lemma_push_contains;
use crate::reach::lemma_reaches_any_step;
use crate::reach::lemma_reaches_any_up;
use crate::reach::lemma_reaches_through_source;
use crate::reach::lemma_reaches_trans;
use crate::reach::reaches;
use crate::reach::reaches_any;
use crate::reach::reaches_or_eq;
use crate::reach::requiring;
use crate::reach::requiring_any;
use vstd::prelude::*;

verus! {

/// The graph is finite, its edges join its nodes, and it has no cycle.
pub open spec fn well_founded(edges: Map<Edge, usize>, nodes: Set<u64>) -> bool {
    &&& nodes.finite()
    &&& edges_within(edges, nodes)
    &&& !has_cycle(edges)
}

/// The plugins that a cascade started at `id` takes down, in the order in which it does so,
/// where `active` are the plugins that are up: none if `id` is not up; else what each of the
/// plugins that require `id` takes down of what is still up, the last of them in visiting
/// order first, and then `id` itself.
pub open spec fn taken_down(
    edges: Map<Edge, usize>,
    nodes: Set<u64>,
    active: Set<u64>,
    id: u64,
) -> Seq<u64>
    decreases ancestors(edges, nodes, id).len(), dependents_of(edges, id).len() + 1,
    when well_founded(edges, nodes)
{
    if !active.contains(id) {
        Seq::empty()
    } else {
        taken_down_before(edges, nodes, active, id, 0).push(id)
    }
}

/// What the plugins that require `id` take down, from the last of them in visiting order
/// back to the one at position `k`.
pub open spec fn taken_down_before(
    edges: Map<Edge, usize>,
    nodes: Set<u64>,
    active: Set<u64>,
    id: u64,
    k: int,
) -> Seq<u64>
    decreases ancestors(edges, nodes, id).len(), dependents_of(edges, id).len() - k,
    when well_founded(edges, nodes) && k >= 0
{
    let dependents = dependents_of(edges, id);
    if k >= dependents.len() {
        Seq::empty()
    } else {
        let earlier = taken_down_before(edges, nodes, active, id, k + 1);
        if edges.contains_key((dependents[k].0, id)) {
            proof {
                lemma_ancestors_decrease(edges, nodes, dependents[k].0, id);
            }
            earlier + taken_down(
                edges,
                nodes,
                active.difference(earlier.to_set()),
                dependents[k].0,
            )
        } else {
            earlier
        }
    }
}

/// One step of a cascade. Of the plugins `active` at the start, those that are, or require,
/// one of the `targets` after position `k` have been taken down and are listed in `done`;
/// `up_before` are still up. Taking down the target at `k` with all that requires it leaves
/// `up_after` up and lists `part`. Then the same holds of the targets from `k` on, with
/// `done` and `part` in a row.
pub proof fn lemma_cascade_step(
    edges: Map<Edge, usize>,
    active: Set<u64>,
    targets: Seq<(u64, usize)>,
    k: int,
    up_before: Set<u64>,
    up_after: Set<u64>,
    done: Seq<u64>,
    part: Seq<u64>,
)
    requires
        0 <= k < targets.len(),
        up_before == active.difference(requiring_any(edges, targets, k + 1)),
        forall|x: u64|
            #[trigger] done.contains(x) <==> (active.contains(x) && reaches_any(
                edges,
                x,
                targets,
                k + 1,
            )),
        done.no_duplicates(),
        dependents_first(edges, done),
        up_after == up_before.difference(requiring(edges, targets[k].0)),
        forall|x: u64|
            #[trigger] part.contains(x) <==> (up_before.contains(x) && reaches_or_eq(
                edges,
                x,
                targets[k].0,
            )),
        part.no_duplicates(),
        dependents_first(edges, part),
    ensures
        up_after == active.difference(requiring_any(edges, targets, k)),
        forall|x: u64|
            #[trigger] (done + part).contains(x) <==> (active.contains(x) && reaches_any(
                edges,
                x,
                targets,
                k,
            )),
        (done + part).no_duplicates(),
        dependents_first(edges, done + part),
        up_before == active.difference(done.to_set()),
{
    let covered = requiring_any(edges, targets, k + 1);
    assert forall|x: u64, y: u64|
        covered.contains(y) && reaches(edges, x, y) implies covered.contains(x) by {
        lemma_reaches_any_up(edges, x, y, targets, k + 1);
    }
    assert forall|x: u64| part.contains(x) implies !covered.contains(x) by {
        assert(up_before.contains(x));
    }
    assert forall|x: u64| done.contains(x) implies covered.contains(x) by {}
    lemma_concat_cascade(edges, done, part, covered);
    lemma_concat_contains(done, part);
    assert forall|x: u64|
        #[trigger] reaches_any(edges, x, targets, k) <==> (reaches_or_eq(edges, x, targets[k].0)
            || reaches_any(edges, x, targets, k + 1)) by {
        lemma_reaches_any_step(edges, x, targets, k);
    }
    assert(up_after =~= active.difference(requiring_any(edges, targets, k)));
    assert(up_before =~= active.difference(done.to_set()));
    assert forall|x: u64|
        #[trigger] (done + part).contains(x) <==> (active.contains(x) && reaches_any(
            edges,
            x,
            targets,
            k,
        )) by {
        assert(part.contains(x) <==> (up_before.contains(x) && reaches_or_eq(
            edges,
            x,
            targets[k].0,
        )));
        assert(done.contains(x) <==> (active.contains(x) && reaches_any(edges, x, targets, k + 1)));
        assert(up_before.contains(x) <==> (active.contains(x) && !covered.contains(x)));
    }
}

/// The end of a cascade. All that requires `id` has been taken down, `targets` being the
/// plugins that require it directly, and is listed in `done`; `up` are still up. Then `id`
/// is up and nothing that requires it is; and with `id` taken down and listed at the end,
/// exactly those of `active` are down and listed that are, or require, `id`.
pub proof fn lemma_cascade_end(
    edges: Map<Edge, usize>,
    active: Set<u64>,
    targets: Seq<(u64, usize)>,
    id: u64,
    up: Set<u64>,
    done: Seq<u64>,
)
    requires
        !has_cycle(edges),
        lists_edges_into(targets, edges, id),
        active.contains(id),
        up == active.difference(requiring_any(edges, targets, 0)),
        forall|x: u64|
            #[trigger] done.contains(x) <==> (active.contains(x) && reaches_any(
                edges,
                x,
                targets,
                0,
            )),
        done.no_duplicates(),
        dependents_first(edges, done),
    ensures
        up.contains(id),
        !done.contains(id),
        forall|a: u64| #[trigger] edges.contains_key((a, id)) ==> !up.contains(a),
        up.remove(id) == active.difference(requiring(edges, id)),
        forall|x: u64|
            #[trigger] done.push(id).contains(x) <==> (active.contains(x) && reaches_or_eq(
                edges,
                x,
                id,
            )),
        done.push(id).no_duplicates(),
        dependents_first(edges, done.push(id)),
{
    assert forall|x: u64| reaches(edges, x, id) <==> #[trigger] reaches_any(
        edges,
        x,
        targets,
        0,
    ) by {
        lemma_reaches_through_source(edges, x, id, targets);
    }
    assert forall|x: u64| done.contains(x) implies !reaches(edges, id, x) by {
        assert(reaches_any(edges, x, targets, 0));
        if reaches(edges, id, x) {
            lemma_reaches_trans(edges, id, x, id);
        }
    }
    assert(!done.contains(id)) by {
        if done.contains(id) {
            assert(reaches_any(edges, id, targets, 0));
        }
    }
    assert(up.contains(id)) by {
        if reaches_any(edges, id, targets, 0) {
            assert(reaches(edges, id, id));
        }
    }
    lemma_push_cascade(edges, done, id);
    lemma_push_contains(done, id);
    assert forall|a: u64| #[trigger] edges.contains_key((a, id)) implies !up.contains(a) by {
        lemma_edge_reaches(edges, a, id);
        assert(reaches_any(edges, a, targets, 0));
        assert(requiring_any(edges, targets, 0).contains(a));
    }
    assert(up.remove(id) =~= active.difference(requiring(edges, id))) by {
        assert forall|x: u64|
            requiring(edges, id).contains(x) <==> (x == id || requiring_any(
                edges,
                targets,
                0,
            ).contains(x)) by {
            assert(reaches(edges, x, id) <==> reaches_any(edges, x, targets, 0));
        }
    }
    assert forall|x: u64|
        #[trigger] done.push(id).contains(x) <==> (active.contains(x) && reaches_or_eq(
            edges,
            x,
            id,
        )) by {
        assert(done.push(id).contains(x) <==> (done.contains(x) || x == id));
        assert(done.contains(x) <==> (active.contains(x) && reaches_any(edges, x, targets, 0)));
        assert(reaches(edges, x, id) <==> reaches_any(edges, x, targets, 0));
    }
}

} // verus!
