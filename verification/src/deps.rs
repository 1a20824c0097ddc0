//! The dependency graph of the registered plugins: declared requirements as edges, cycle
//! rejection with exact rollback, and the order in which requirements and dependents are
//! visited.

use crate::graph::Edge;
use crate::graph::RequiresGraph;
use crate::graph::edges_without_node;
use crate::graph::graph_add_edge;
use crate::graph::graph_add_node;
use crate::graph::graph_contains_node;
use crate::graph::graph_edges;
use crate::graph::graph_edges_from;
use crate::graph::graph_edges_into;
use crate::graph::graph_is_cyclic;
use crate::graph::graph_nodes;
use crate::graph::graph_remove_edge;
use crate::graph::graph_remove_node;
use crate::graph::graph_with_capacity;
use crate::reach::edges_within;
use crate::reach::has_cycle;
use crate::reach::lemma_first_step;
use crate::reach::lemma_subgraph_acyclic;
use crate::reach::reaches;
use vstd::prelude::*;

verus! {

/// The edges after plugin `id` has declared `deps`: one edge from `id` to each entry, carrying
/// the entry's position. Where an entry is repeated, the later position stays.
pub open spec fn edges_with(edges: Map<Edge, usize>, id: u64, deps: Seq<u64>) -> Map<Edge, usize>
    decreases deps.len(),
{
    if deps.len() == 0 {
        edges
    } else {
        edges_with(edges, id, deps.drop_last()).insert(
            (id, deps.last()),
            (deps.len() - 1) as usize,
        )
    }
}

/// The nodes after plugin `id` has declared `deps`: `id` and every entry are nodes.
pub open spec fn nodes_with(nodes: Set<u64>, id: u64, deps: Seq<u64>) -> Set<u64> {
    nodes.insert(id).union(deps.to_set())
}

/// `x` comes before `y` in visiting order: by the position stored on the edge, and by id
/// where two edges carry the same position.
pub open spec fn visited_before(x: (u64, usize), y: (u64, usize)) -> bool {
    x.1 < y.1 || (x.1 == y.1 && x.0 < y.0)
}

/// `out` is in visiting order, without repetition.
pub open spec fn in_visiting_order(out: Seq<(u64, usize)>) -> bool {
    forall|i: int, j: int| 0 <= i < j < out.len() ==> visited_before(out[i], out[j])
}

/// `out` lists exactly the edges that start at `a`, each as its target and position.
pub open spec fn lists_edges_from(out: Seq<(u64, usize)>, edges: Map<Edge, usize>, a: u64) -> bool {
    forall|b: u64, w: usize|
        #[trigger] out.contains((b, w)) <==> (edges.contains_key((a, b)) && edges[(a, b)] == w)
}

/// `out` lists exactly the edges that end at `b`, each as its source and position.
pub open spec fn lists_edges_into(out: Seq<(u64, usize)>, edges: Map<Edge, usize>, b: u64) -> bool {
    forall|a: u64, w: usize|
        #[trigger] out.contains((a, w)) <==> (edges.contains_key((a, b)) && edges[(a, b)] == w)
}

/// The edges that start at `a`, each as its target and position, in visiting order.
pub open spec fn requirements_of(edges: Map<Edge, usize>, a: u64) -> Seq<(u64, usize)> {
    choose|s: Seq<(u64, usize)>| lists_edges_from(s, edges, a) && in_visiting_order(s)
}

/// The edges that end at `b`, each as its source and position, in visiting order.
pub open spec fn dependents_of(edges: Map<Edge, usize>, b: u64) -> Seq<(u64, usize)> {
    choose|s: Seq<(u64, usize)>| lists_edges_into(s, edges, b) && in_visiting_order(s)
}

/// Two lists in visiting order that hold the same entries are the same list.
pub proof fn lemma_visiting_order_unique(s: Seq<(u64, usize)>, t: Seq<(u64, usize)>)
    requires
        in_visiting_order(s),
        in_visiting_order(t),
        forall|x: (u64, usize)| s.contains(x) <==> t.contains(x),
    ensures
        s == t,
    decreases s.len(),
{
    if s.len() == 0 {
        if t.len() > 0 {
            assert(t.contains(t[0]));
        }
        assert(s =~= t);
    } else {
        assert(s.contains(s[0]));
        assert(t.len() > 0);
        assert(t.contains(t[0]));
        // The first entry of each list is the least of all entries, hence the same.
        let i = choose|i: int| 0 <= i < t.len() && t[i] == s[0];
        let j = choose|j: int| 0 <= j < s.len() && s[j] == t[0];
        if i > 0 {
            assert(visited_before(t[0], t[i]));
            if j > 0 {
                assert(visited_before(s[0], s[j]));
            }
        }
        assert(s[0] == t[0]);
        let s1 = s.drop_first();
        let t1 = t.drop_first();
        assert forall|x: (u64, usize)| s1.contains(x) <==> t1.contains(x) by {
            if s1.contains(x) {
                let k = choose|k: int| 0 <= k < s1.len() && s1[k] == x;
                assert(s[k + 1] == x);
                assert(visited_before(s[0], s[k + 1]));
                assert(s.contains(x));
                let m = choose|m: int| 0 <= m < t.len() && t[m] == x;
                assert(m > 0);
                assert(t1[m - 1] == x);
            }
            if t1.contains(x) {
                let k = choose|k: int| 0 <= k < t1.len() && t1[k] == x;
                assert(t[k + 1] == x);
                assert(visited_before(t[0], t[k + 1]));
                assert(t.contains(x));
                let m = choose|m: int| 0 <= m < s.len() && s[m] == x;
                assert(m > 0);
                assert(s1[m - 1] == x);
            }
        }
        assert(in_visiting_order(s1)) by {
            assert forall|a: int, b: int| 0 <= a < b < s1.len() implies visited_before(
                s1[a],
                s1[b],
            ) by {
                assert(visited_before(s[a + 1], s[b + 1]));
            }
        }
        assert(in_visiting_order(t1)) by {
            assert forall|a: int, b: int| 0 <= a < b < t1.len() implies visited_before(
                t1[a],
                t1[b],
            ) by {
                assert(visited_before(t[a + 1], t[b + 1]));
            }
        }
        lemma_visiting_order_unique(s1, t1);
        assert(s =~= seq![s[0]] + s1);
        assert(t =~= seq![t[0]] + t1);
    }
}

/// A list in visiting order of the edges from `a` is the list of them.
pub proof fn lemma_requirements_of(edges: Map<Edge, usize>, a: u64, s: Seq<(u64, usize)>)
    requires
        lists_edges_from(s, edges, a),
        in_visiting_order(s),
    ensures
        requirements_of(edges, a) == s,
{
    let t = requirements_of(edges, a);
    assert forall|x: (u64, usize)| s.contains(x) <==> t.contains(x) by {
        assert(s.contains((x.0, x.1)) <==> t.contains((x.0, x.1)));
    }
    lemma_visiting_order_unique(s, t);
}

/// A list in visiting order of the edges into `b` is the list of them.
pub proof fn lemma_dependents_of(edges: Map<Edge, usize>, b: u64, s: Seq<(u64, usize)>)
    requires
        lists_edges_into(s, edges, b),
        in_visiting_order(s),
    ensures
        dependents_of(edges, b) == s,
{
    let t = dependents_of(edges, b);
    assert forall|x: (u64, usize)| s.contains(x) <==> t.contains(x) by {
        assert(s.contains((x.0, x.1)) <==> t.contains((x.0, x.1)));
    }
    lemma_visiting_order_unique(s, t);
}

/// Whether any edge ends at `b`.
pub open spec fn has_dependents(edges: Map<Edge, usize>, b: u64) -> bool {
    exists|a: u64| edges.contains_key((a, b))
}

/// Puts a list of distinct edges into visiting order.
pub fn sort_for_visit(items: Vec<(u64, usize)>) -> (out: Vec<(u64, usize)>)
    requires
        items@.no_duplicates(),
    ensures
        in_visiting_order(out@),
        forall|x: (u64, usize)| out@.contains(x) <==> items@.contains(x),
        out@.len() == items@.len(),
{
    let mut rest = items;
    let mut out: Vec<(u64, usize)> = Vec::new();
    while rest.len() > 0
        invariant
            rest@.no_duplicates(),
            in_visiting_order(out@),
            out@.len() + rest@.len() == items@.len(),
            forall|x: (u64, usize)| items@.contains(x) <==> (out@.contains(x) || rest@.contains(x)),
            forall|i: int, j: int|
                0 <= i < out@.len() && 0 <= j < rest@.len() ==> visited_before(out@[i], rest@[j]),
        decreases rest@.len(),
    {
        let mut m: usize = 0;
        let mut k: usize = 1;
        while k < rest.len()
            invariant
                0 <= m < k <= rest@.len(),
                rest@.no_duplicates(),
                forall|j: int| 0 <= j < k && j != m ==> visited_before(rest@[m as int], rest@[j]),
            decreases rest@.len() - k,
        {
            let cand = rest[k];
            let best = rest[m];
            if cand.1 < best.1 || (cand.1 == best.1 && cand.0 < best.0) {
                m = k;
            }
            k += 1;
        }
        let ghost before = rest@;
        let ghost done = out@;
        let x = rest.remove(m);
        out.push(x);
        proof {
            assert(rest@ == before.remove(m as int));
            assert forall|j: int| 0 <= j < rest@.len() implies rest@[j] == before[if j < m {
                j
            } else {
                j + 1
            }] by {}
            assert forall|y: (u64, usize)| before.contains(y) <==> (y == x || rest@.contains(
                y,
            )) by {
                if before.contains(y) && y != x {
                    let i = choose|i: int| 0 <= i < before.len() && before[i] == y;
                    if i < m {
                        assert(rest@[i] == y);
                    } else {
                        assert(rest@[i - 1] == y);
                    }
                }
                if rest@.contains(y) {
                    let i = choose|i: int| 0 <= i < rest@.len() && rest@[i] == y;
                    assert(before[if i < m {
                        i
                    } else {
                        i + 1
                    }] == y);
                }
                if y == x {
                    assert(before[m as int] == y);
                }
            }
            assert forall|y: (u64, usize)| out@.contains(y) <==> (y == x || done.contains(y)) by {
                if done.contains(y) {
                    let i = choose|i: int| 0 <= i < done.len() && done[i] == y;
                    assert(out@[i] == y);
                }
                if y == x {
                    assert(out@[out@.len() - 1] == y);
                }
            }
            assert forall|i: int, j: int| 0 <= i < out@.len() && 0 <= j < rest@.len() implies visited_before(
                out@[i],
                rest@[j],
            ) by {
                let jj = if j < m {
                    j
                } else {
                    j + 1
                };
                assert(rest@[j] == before[jj]);
                if i < done.len() {
                    assert(out@[i] == done[i]);
                } else {
                    assert(out@[i] == before[m as int]);
                }
            }
            assert forall|i: int, j: int| 0 <= i < j < out@.len() implies visited_before(
                out@[i],
                out@[j],
            ) by {
                if j < done.len() {
                    assert(out@[i] == done[i] && out@[j] == done[j]);
                } else {
                    assert(out@[i] == done[i]);
                    assert(out@[j] == before[m as int]);
                }
            }
        }
    }
    out
}

/// Declaring requirements adds edges that start at the declaring plugin, and no others.
pub proof fn lemma_edges_with_keys(edges: Map<Edge, usize>, id: u64, deps: Seq<u64>, a: u64, b: u64)
    ensures
        edges_with(edges, id, deps).contains_key((a, b)) <==> (edges.contains_key((a, b)) || (a
            == id && deps.contains(b))),
    decreases deps.len(),
{
    if deps.len() > 0 {
        let front = deps.drop_last();
        lemma_edges_with_keys(edges, id, front, a, b);
        if front.contains(b) {
            let i = choose|i: int| 0 <= i < front.len() && front[i] == b;
            assert(deps[i] == b);
        }
        if deps.contains(b) {
            let i = choose|i: int| 0 <= i < deps.len() && deps[i] == b;
            if i < deps.len() - 1 {
                assert(front[i] == b);
            }
        }
        assert(deps[deps.len() - 1] == deps.last());
    }
}

/// A graph without edges has no cycle.
pub proof fn lemma_empty_acyclic(edges: Map<Edge, usize>)
    requires
        edges.dom() =~= Set::empty(),
    ensures
        !has_cycle(edges),
{
    if has_cycle(edges) {
        let a = choose|a: u64| reaches(edges, a, a);
        let m = lemma_first_step(edges, a, a);
        assert(edges.dom().contains((a, m)));
    }
}

/// Declaring requirements keeps every edge within the nodes.
pub proof fn lemma_with_within(edges: Map<Edge, usize>, nodes: Set<u64>, id: u64, deps: Seq<u64>)
    requires
        edges_within(edges, nodes),
    ensures
        edges_within(edges_with(edges, id, deps), nodes_with(nodes, id, deps)),
    decreases deps.len(),
{
    if deps.len() > 0 {
        let front = deps.drop_last();
        lemma_with_within(edges, nodes, id, front);
        let e = edges_with(edges, id, deps);
        let n = nodes_with(nodes, id, deps);
        assert forall|x: Edge| #[trigger] e.contains_key(x) implies n.contains(x.0) && n.contains(
            x.1,
        ) by {
            if x == (id, deps.last()) {
                assert(deps[deps.len() - 1] == x.1);
            } else {
                assert(edges_with(edges, id, front).contains_key(x));
                if front.to_set().contains(x.0) {
                    let i = choose|i: int| 0 <= i < front.len() && front[i] == x.0;
                    assert(deps[i] == x.0);
                }
                if front.to_set().contains(x.1) {
                    let i = choose|i: int| 0 <= i < front.len() && front[i] == x.1;
                    assert(deps[i] == x.1);
                }
            }
        }
    }
}

/// Declaring one more requirement adds one node to those of the shorter list.
pub proof fn lemma_nodes_with_step(nodes: Set<u64>, id: u64, deps: Seq<u64>, k: int)
    requires
        0 <= k < deps.len(),
    ensures
        nodes_with(nodes, id, deps.take(k + 1)) == nodes_with(nodes, id, deps.take(k)).insert(
            deps[k],
        ),
        deps.take(k + 1).drop_last() == deps.take(k),
        deps.take(k + 1).last() == deps[k],
{
    let longer = deps.take(k + 1);
    let shorter = deps.take(k);
    assert(longer.drop_last() =~= shorter);
    assert forall|x: u64| longer.to_set().contains(x) <==> (shorter.to_set().contains(x) || x
        == deps[k]) by {
        if longer.to_set().contains(x) {
            let i = choose|i: int| 0 <= i < longer.len() && longer[i] == x;
            if i < k {
                assert(shorter[i] == x);
            }
        }
        if shorter.to_set().contains(x) {
            let i = choose|i: int| 0 <= i < shorter.len() && shorter[i] == x;
            assert(longer[i] == x);
        }
        if x == deps[k] {
            assert(longer[k] == x);
        }
    }
    assert(nodes_with(nodes, id, longer) =~= nodes_with(nodes, id, shorter).insert(deps[k]));
}

/// What one added edge replaced, so that it can be taken back.
struct Undo {
    target: u64,
    previous: Option<usize>,
    fresh: bool,
}

/// The requirements among plugins, as a directed graph from each plugin to what it requires.
pub struct DependencyGraph {
    inner: RequiresGraph,
}

impl DependencyGraph {
    /// The ids that the graph knows: registered plugins and what they have declared.
    pub closed spec fn nodes(&self) -> Set<u64> {
        graph_nodes(self.inner)
    }

    /// The declared requirements, each with its position in the declaring plugin's list.
    pub closed spec fn edges(&self) -> Map<Edge, usize> {
        graph_edges(self.inner)
    }

    /// The graph is finite and every edge joins two of its nodes.
    pub open spec fn wf(&self) -> bool {
        &&& self.nodes().finite()
        &&& edges_within(self.edges(), self.nodes())
    }

    /// No plugin requires itself, directly or through others.
    pub open spec fn acyclic(&self) -> bool {
        !has_cycle(self.edges())
    }

    /// An empty graph with room for `count` plugins.
    pub fn with_capacity(count: usize) -> (g: Self)
        ensures
            g.wf(),
            g.acyclic(),
            g.nodes() =~= Set::empty(),
            g.edges() =~= Map::empty(),
    {
        let g = DependencyGraph { inner: graph_with_capacity(count, 0) };
        proof {
            lemma_empty_acyclic(g.edges());
        }
        g
    }

    /// An empty graph.
    pub fn new() -> (g: Self)
        ensures
            g.wf(),
            g.acyclic(),
            g.nodes() =~= Set::empty(),
            g.edges() =~= Map::empty(),
    {
        Self::with_capacity(0)
    }

    /// Whether the graph knows `id`.
    pub fn contains(&self, id: u64) -> (found: bool)
        ensures
            found == self.nodes().contains(id),
    {
        graph_contains_node(&self.inner, id)
    }

    /// Adds the node `id` and an edge to each entry of `deps`, and records what each step
    /// replaced.
    fn add_declared(&mut self, id: u64, deps: &[u64]) -> (log: (bool, Vec<Undo>))
        requires
            old(self).wf(),
        ensures
            final(self).wf(),
            final(self).edges() == edges_with(old(self).edges(), id, deps@),
            final(self).nodes() == nodes_with(old(self).nodes(), id, deps@),
            log.0 == !old(self).nodes().contains(id),
            log.1@.len() == deps@.len(),
            forall|j: int|
                0 <= j < deps@.len() ==> {
                    let before = edges_with(old(self).edges(), id, deps@.take(j));
                    let known = nodes_with(old(self).nodes(), id, deps@.take(j));
                    &&& (#[trigger] log.1@[j]).target == deps@[j]
                    &&& log.1@[j].fresh == !known.contains(deps@[j])
                    &&& log.1@[j].previous is Some <==> before.contains_key((id, deps@[j]))
                    &&& log.1@[j].previous is Some ==> log.1@[j].previous->0 == before[(
                        id,
                        deps@[j],
                    )]
                },
    {
        let ghost e0 = self.edges();
        let ghost n0 = self.nodes();
        let id_fresh = !graph_contains_node(&self.inner, id);
        graph_add_node(&mut self.inner, id);
        let mut log: Vec<Undo> = Vec::new();
        let mut k: usize = 0;
        proof {
            assert(deps@.take(0) =~= Seq::<u64>::empty());
            assert(nodes_with(n0, id, deps@.take(0)) =~= n0.insert(id));
        }
        while k < deps.len()
            invariant
                0 <= k <= deps@.len(),
                edges_within(e0, n0),
                n0.finite(),
                self.edges() == edges_with(e0, id, deps@.take(k as int)),
                self.nodes() == nodes_with(n0, id, deps@.take(k as int)),
                log@.len() == k,
                forall|j: int|
                    0 <= j < k ==> {
                        let before = edges_with(e0, id, deps@.take(j));
                        let known = nodes_with(n0, id, deps@.take(j));
                        &&& (#[trigger] log@[j]).target == deps@[j]
                        &&& log@[j].fresh == !known.contains(deps@[j])
                        &&& log@[j].previous is Some <==> before.contains_key((id, deps@[j]))
                        &&& log@[j].previous is Some ==> log@[j].previous->0 == before[(
                            id,
                            deps@[j],
                        )]
                    },
            decreases deps@.len() - k,
        {
            let target = deps[k];
            let fresh = !graph_contains_node(&self.inner, target);
            let previous = graph_add_edge(&mut self.inner, id, target, k);
            proof {
                lemma_nodes_with_step(n0, id, deps@, k as int);
                assert(self.nodes() =~= nodes_with(n0, id, deps@.take(k as int)).insert(target));
            }
            log.push(Undo { target, previous, fresh });
            k += 1;
        }
        proof {
            assert(deps@.take(deps@.len() as int) =~= deps@);
            lemma_with_within(e0, n0, id, deps@);
            assert(n0.insert(id).union(deps@.to_set()).finite()) by {
                vstd::seq_lib::seq_to_set_is_finite(deps@);
            }
        }
        (id_fresh, log)
    }

    /// Takes back what `add_declared` did, last step first.
    fn take_back(
        &mut self,
        id: u64,
        deps: &[u64],
        id_fresh: bool,
        log: &Vec<Undo>,
        Ghost(e0): Ghost<Map<Edge, usize>>,
        Ghost(n0): Ghost<Set<u64>>,
    )
        requires
            n0.finite(),
            edges_within(e0, n0),
            old(self).edges() == edges_with(e0, id, deps@),
            old(self).nodes() == nodes_with(n0, id, deps@),
            id_fresh == !n0.contains(id),
            log@.len() == deps@.len(),
            forall|j: int|
                0 <= j < deps@.len() ==> {
                    let before = edges_with(e0, id, deps@.take(j));
                    let known = nodes_with(n0, id, deps@.take(j));
                    &&& (#[trigger] log@[j]).target == deps@[j]
                    &&& log@[j].fresh == !known.contains(deps@[j])
                    &&& log@[j].previous is Some <==> before.contains_key((id, deps@[j]))
                    &&& log@[j].previous is Some ==> log@[j].previous->0 == before[(
                        id,
                        deps@[j],
                    )]
                },
        ensures
            final(self).edges() == e0,
            final(self).nodes() == n0,
    {
        let mut k: usize = log.len();
        proof {
            assert(deps@.take(deps@.len() as int) =~= deps@);
        }
        while k > 0
            invariant
                0 <= k <= deps@.len(),
                n0.finite(),
                edges_within(e0, n0),
                log@.len() == deps@.len(),
                self.edges() == edges_with(e0, id, deps@.take(k as int)),
                self.nodes() == nodes_with(n0, id, deps@.take(k as int)),
                forall|j: int|
                    0 <= j < deps@.len() ==> {
                        let before = edges_with(e0, id, deps@.take(j));
                        let known = nodes_with(n0, id, deps@.take(j));
                        &&& (#[trigger] log@[j]).target == deps@[j]
                        &&& log@[j].fresh == !known.contains(deps@[j])
                        &&& log@[j].previous is Some <==> before.contains_key((id, deps@[j]))
                        &&& log@[j].previous is Some ==> log@[j].previous->0 == before[(
                            id,
                            deps@[j],
                        )]
                    },
            decreases k,
        {
            k -= 1;
            let ghost before = edges_with(e0, id, deps@.take(k as int));
            let ghost known = nodes_with(n0, id, deps@.take(k as int));
            let target = log[k].target;
            proof {
                lemma_nodes_with_step(n0, id, deps@, k as int);
                lemma_with_within(e0, n0, id, deps@.take(k as int));
                assert(log@[k as int].target == deps@[k as int]);
                assert(known.contains(id));
            }
            match log[k].previous {
                Some(weight) => {
                    graph_add_edge(&mut self.inner, id, target, weight);
                    proof {
                        assert(before.contains_key((id, target)));
                        assert(known.contains(target));
                        assert(self.edges() =~= before);
                        assert(self.nodes() =~= known);
                    }
                },
                None => {
                    graph_remove_edge(&mut self.inner, id, target);
                    proof {
                        assert(self.edges() =~= before);
                    }
                    if log[k].fresh {
                        graph_remove_node(&mut self.inner, target);
                        proof {
                            assert(self.nodes() =~= known);
                            assert(self.edges() =~= before);
                        }
                    } else {
                        proof {
                            assert(self.nodes() =~= known);
                        }
                    }
                },
            }
        }
        proof {
            assert(deps@.take(0) =~= Seq::<u64>::empty());
            assert(self.nodes() =~= n0.insert(id));
        }
        if id_fresh {
            graph_remove_node(&mut self.inner, id);
            proof {
                assert(self.nodes() =~= n0);
                assert(self.edges() =~= e0);
            }
        } else {
            proof {
                assert(self.nodes() =~= n0);
            }
        }
    }

    /// Declares that plugin `id` requires each entry of `deps`, in that order, unless that
    /// would leave a cycle in the graph: then the graph is left exactly as it was.
    pub fn declare(&mut self, id: u64, deps: &[u64]) -> (accepted: bool)
        requires
            old(self).wf(),
        ensures
            final(self).wf(),
            accepted == !has_cycle(edges_with(old(self).edges(), id, deps@)),
            accepted ==> final(self).edges() == edges_with(old(self).edges(), id, deps@),
            accepted ==> final(self).nodes() == nodes_with(old(self).nodes(), id, deps@),
            !accepted ==> final(self).edges() == old(self).edges(),
            !accepted ==> final(self).nodes() == old(self).nodes(),
    {
        let ghost e0 = self.edges();
        let ghost n0 = self.nodes();
        let (id_fresh, log) = self.add_declared(id, deps);
        if graph_is_cyclic(&self.inner) {
            self.take_back(id, deps, id_fresh, &log, Ghost(e0), Ghost(n0));
            false
        } else {
            true
        }
    }

    /// What `id` requires, in the order in which it is visited.
    pub fn requirements(&self, id: u64) -> (out: Vec<(u64, usize)>)
        ensures
            out@ == requirements_of(self.edges(), id),
            lists_edges_from(out@, self.edges(), id),
            in_visiting_order(out@),
    {
        let raw = graph_edges_from(&self.inner, id);
        let out = sort_for_visit(raw);
        proof {
            assert forall|b: u64, w: usize| #[trigger]
                out@.contains((b, w)) <==> (self.edges().contains_key((id, b))
                    && self.edges()[(id, b)] == w) by {
                assert(out@.contains((b, w)) <==> raw@.contains((b, w)));
            }
            lemma_requirements_of(self.edges(), id, out@);
        }
        out
    }

    /// The plugins that require `id`, in the order in which they are visited.
    pub fn dependents(&self, id: u64) -> (out: Vec<(u64, usize)>)
        ensures
            out@ == dependents_of(self.edges(), id),
            lists_edges_into(out@, self.edges(), id),
            in_visiting_order(out@),
    {
        let raw = graph_edges_into(&self.inner, id);
        let out = sort_for_visit(raw);
        proof {
            assert forall|a: u64, w: usize| #[trigger]
                out@.contains((a, w)) <==> (self.edges().contains_key((a, id))
                    && self.edges()[(a, id)] == w) by {
                assert(out@.contains((a, w)) <==> raw@.contains((a, w)));
            }
            lemma_dependents_of(self.edges(), id, out@);
        }
        out
    }

    /// Forgets `id` and the requirements it declared, unless some plugin still requires it.
    pub fn prune(&mut self, id: u64) -> (removed: bool)
        requires
            old(self).wf(),
        ensures
            final(self).wf(),
            removed == !has_dependents(old(self).edges(), id),
            removed ==> final(self).nodes() == old(self).nodes().remove(id),
            removed ==> final(self).edges() == edges_without_node(old(self).edges(), id),
            !removed ==> final(self).nodes() == old(self).nodes(),
            !removed ==> final(self).edges() == old(self).edges(),
            old(self).acyclic() ==> final(self).acyclic(),
    {
        let into = graph_edges_into(&self.inner, id);
        if into.len() == 0 {
            proof {
                if has_dependents(self.edges(), id) {
                    let a = choose|a: u64| self.edges().contains_key((a, id));
                    assert(into@.contains((a, self.edges()[(a, id)])));
                }
            }
            let ghost e0 = self.edges();
            graph_remove_node(&mut self.inner, id);
            proof {
                if !has_cycle(e0) {
                    lemma_subgraph_acyclic(self.edges(), e0);
                }
            }
            true
        } else {
            proof {
                let x = into@[0];
                assert(into@.contains((x.0, x.1)));
            }
            false
        }
    }
}

} // verus!
