//! General facts about the library, stated over the same specification functions as the
//! contracts of its operations and proved from them.

use crate::deps::edges_with;
use crate::deps::lemma_edges_with_keys;
use crate::graph::Edge;
use crate::hook::HookRegistry;
use crate::hook::Hook;
use crate::hook::lemma_none_left;
use crate::hook::owned_by_none;
use crate::hook::position_of;
use crate::manifest::PluginManifest;
use crate::plugin::PluginRegistry;
use crate::plugin::registration_verdict;
use crate::reach::dependents_first;
use crate::reach::has_cycle;
use crate::reach::lemma_closed_reaches;
use crate::reach::lemma_subgraph_acyclic;
use crate::reach::reaches;
use std::any::TypeId;
use vstd::prelude::*;

verus! {

/// A request to register a plugin: the id that its manifest gives and the dependencies that
/// it declares.
pub type Request = (u64, Seq<u64>);

/// The ids of a sequence of requests.
pub open spec fn ids_of(requests: Seq<Request>) -> Seq<u64> {
    Seq::new(requests.len(), |k: int| requests[k].0)
}

/// The edges of the dependency graph after all of `requests` have been accepted, in order,
/// by a registry whose graph held `edges`.
pub open spec fn edges_after(edges: Map<Edge, usize>, requests: Seq<Request>) -> Map<Edge, usize>
    decreases requests.len(),
{
    if requests.len() == 0 {
        edges
    } else {
        edges_with(
            edges_after(edges, requests.drop_last()),
            requests.last().0,
            requests.last().1,
        )
    }
}

/// The registered ids after all of `requests` have been accepted by a registry that held
/// `registered`.
pub open spec fn registered_after(registered: Set<u64>, requests: Seq<Request>) -> Set<u64> {
    registered.union(ids_of(requests).to_set())
}

/// Accepting one more request adds its id and the edges that it declares.
pub proof fn lemma_edges_after_step(
    registered: Set<u64>,
    edges: Map<Edge, usize>,
    requests: Seq<Request>,
    k: int,
)
    requires
        0 <= k < requests.len(),
    ensures
        edges_after(edges, requests.take(k + 1)) == edges_with(
            edges_after(edges, requests.take(k)),
            requests[k].0,
            requests[k].1,
        ),
        registered_after(registered, requests.take(k + 1)) == registered_after(
            registered,
            requests.take(k),
        ).insert(requests[k].0),
{
    let longer = requests.take(k + 1);
    let shorter = requests.take(k);
    assert(longer.drop_last() =~= shorter);
    assert(longer.last() == requests[k]);
    assert forall|x: u64|
        ids_of(longer).to_set().contains(x) <==> (ids_of(shorter).to_set().contains(x) || x
            == requests[k].0) by {
        if ids_of(longer).to_set().contains(x) {
            let i = choose|i: int| 0 <= i < ids_of(longer).len() && ids_of(longer)[i] == x;
            if i < k {
                assert(ids_of(shorter)[i] == x);
            }
        }
        if ids_of(shorter).to_set().contains(x) {
            let i = choose|i: int| 0 <= i < ids_of(shorter).len() && ids_of(shorter)[i] == x;
            assert(ids_of(longer)[i] == x);
        }
        if x == requests[k].0 {
            assert(ids_of(longer)[k] == x);
        }
    }
    assert(registered_after(registered, longer) =~= registered_after(registered, shorter).insert(
        requests[k].0,
    ));
}

/// The edges after some of the requests are among the edges after all of them.
pub proof fn lemma_edges_after_grow(edges: Map<Edge, usize>, requests: Seq<Request>, k: int)
    requires
        0 <= k <= requests.len(),
    ensures
        edges_after(edges, requests.take(k)).dom().subset_of(edges_after(edges, requests).dom()),
    decreases requests.len() - k,
{
    if k < requests.len() {
        lemma_edges_after_grow(edges, requests, k + 1);
        lemma_edges_after_step(Set::empty(), edges, requests, k);
        let shorter = edges_after(edges, requests.take(k));
        assert forall|e: Edge| shorter.dom().contains(e) implies edges_after(
            edges,
            requests,
        ).dom().contains(e) by {
            lemma_edges_with_keys(shorter, requests[k].0, requests[k].1, e.0, e.1);
            assert(edges_after(edges, requests.take(k + 1)).dom().contains(e));
        }
    } else {
        assert(requests.take(k) =~= requests);
    }
}

/// Registrations whose declared dependencies form a graph without a cycle all succeed, and
/// each adds one plugin.
///
/// The requests are made one after the other, each with an id that is not registered yet, to
/// a registry that holds `registered` with the graph `edges`. If the graph that results when
/// all of them are accepted has no cycle, then each of them is accepted when its turn comes,
/// and the number of registered plugins grows by the number of requests.
pub proof fn lemma_acyclic_registrations_succeed(
    registered: Set<u64>,
    edges: Map<Edge, usize>,
    requests: Seq<Request>,
)
    requires
        registered.finite(),
        ids_of(requests).no_duplicates(),
        forall|k: int| 0 <= k < requests.len() ==> !registered.contains(#[trigger] requests[k].0),
        !has_cycle(edges_after(edges, requests)),
    ensures
        forall|k: int|
            0 <= k < requests.len() ==> #[trigger] registration_verdict(
                registered_after(registered, requests.take(k)),
                edges_after(edges, requests.take(k)),
                requests[k].0,
                requests[k].1,
            ) == Ok::<u64, crate::error::RegisterPluginError<u64>>(requests[k].0),
        registered_after(registered, requests).len() == registered.len() + requests.len(),
{
    assert forall|k: int| 0 <= k < requests.len() implies #[trigger] registration_verdict(
        registered_after(registered, requests.take(k)),
        edges_after(edges, requests.take(k)),
        requests[k].0,
        requests[k].1,
    ) == Ok::<u64, crate::error::RegisterPluginError<u64>>(requests[k].0) by {
        let id = requests[k].0;
        let earlier = ids_of(requests.take(k));
        if earlier.to_set().contains(id) {
            let i = choose|i: int| 0 <= i < earlier.len() && earlier[i] == id;
            assert(ids_of(requests)[i] == ids_of(requests)[k]);
        }
        lemma_edges_after_step(Set::empty(), edges, requests, k);
        lemma_edges_after_grow(edges, requests, k + 1);
        lemma_subgraph_acyclic(
            edges_after(edges, requests.take(k + 1)),
            edges_after(edges, requests),
        );
    }
    let ids = ids_of(requests);
    ids.unique_seq_to_set();
    vstd::seq_lib::seq_to_set_is_finite(ids);
    assert(registered.disjoint(ids.to_set())) by {
        assert forall|x: u64| !(registered.contains(x) && ids.to_set().contains(x)) by {
            if ids.to_set().contains(x) {
                let i = choose|i: int| 0 <= i < ids.len() && ids[i] == x;
                assert(requests[i].0 == x);
            }
        }
    }
    vstd::set_lib::lemma_set_disjoint_lens(registered, ids.to_set());
}

/// In the list that a cascade returns, a plugin stands before everything it requires: where
/// `b` requires `a`, directly or through others, and both are listed, `b` comes first.
pub proof fn lemma_dependent_listed_first(
    edges: Map<Edge, usize>,
    list: Seq<u64>,
    a: u64,
    b: u64,
    i: int,
    j: int,
)
    requires
        dependents_first(edges, list),
        0 <= i < list.len(),
        0 <= j < list.len(),
        list[i] == a,
        list[j] == b,
        reaches(edges, b, a),
        !has_cycle(edges),
    ensures
        j < i,
{
    if i < j {
        assert(!reaches(edges, list[j], list[i]));
    }
    if i == j {
        assert(reaches(edges, a, a));
    }
}

impl<Manifest: PluginManifest, H, P, F: Fn() -> P> PluginRegistry<Manifest, H, P, F> {
    /// A loaded plugin has everything loaded that it requires, directly or through others.
    pub proof fn lemma_loaded_requirements(&self, id: u64, dependency: u64)
        requires
            self.wf(),
            self.loaded().contains(id),
            reaches(self.edges(), id, dependency),
        ensures
            self.loaded().contains(dependency),
            self.registered().contains(dependency),
    {
        lemma_closed_reaches(self.edges(), self.loaded(), id, dependency);
    }

    /// An enabled plugin is loaded, and has everything enabled that it requires, directly or
    /// through others.
    pub proof fn lemma_enabled_requirements(&self, id: u64, dependency: u64)
        requires
            self.wf(),
            self.enabled().contains(id),
            reaches(self.edges(), id, dependency),
        ensures
            self.loaded().contains(id),
            self.enabled().contains(dependency),
    {
        lemma_closed_reaches(self.edges(), self.enabled(), id, dependency);
    }

    /// While a plugin is not loaded, no plugin that requires it is loaded; while it is not
    /// enabled, no plugin that requires it is enabled.
    pub proof fn lemma_dependents_follow(&self, id: u64, dependent: u64)
        requires
            self.wf(),
            reaches(self.edges(), dependent, id),
        ensures
            !self.loaded().contains(id) ==> !self.loaded().contains(dependent),
            !self.enabled().contains(id) ==> !self.enabled().contains(dependent),
    {
        if self.loaded().contains(dependent) {
            lemma_closed_reaches(self.edges(), self.loaded(), dependent, id);
        }
        if self.enabled().contains(dependent) {
            lemma_closed_reaches(self.edges(), self.enabled(), dependent, id);
        }
    }
}

/// Where the entries of a slot are what they were without those of the plugins in `gone`, as
/// they are after [`PluginRegistry::unload`] and [`PluginRegistry::remove`], no entry is
/// paired with one of these plugins.
pub proof fn lemma_no_entry_of_the_gone<H>(
    before: Seq<(u64, Hook<H>)>,
    after: Seq<(u64, Hook<H>)>,
    gone: Seq<u64>,
    k: int,
)
    requires
        after == before.filter(owned_by_none(gone.to_set())),
        0 <= k < after.len(),
    ensures
        !gone.contains(after[k].0),
{
    lemma_none_left(before, gone.to_set(), k);
}

impl<H> HookRegistry<H> {
    /// A plugin has at most one hook of a name for a slot: where a hook of that name is
    /// registered, it is the only one.
    pub proof fn lemma_one_hook_per_name(&self, slot: TypeId, plugin: u64, name: Option<u64>, k: int)
        requires
            self.wf(),
            0 <= k < self.hooks_of(slot, plugin).len(),
            self.hooks_of(slot, plugin)[k].name == name,
        ensures
            position_of(self.hooks_of(slot, plugin), name) == k,
            forall|l: int|
                0 <= l < self.hooks_of(slot, plugin).len() && l != k ==> (#[trigger] self.hooks_of(
                    slot,
                    plugin,
                )[l]).name != name,
    {
        self.lemma_names_distinct(slot, plugin);
        let hooks = self.hooks_of(slot, plugin);
        assert forall|l: int| 0 <= l < hooks.len() && l != k implies (#[trigger] hooks[l]).name
            != name by {
            if l < k {
                assert(hooks[l].name != hooks[k].name);
            } else {
                assert(hooks[k].name != hooks[l].name);
            }
        }
        crate::hook::lemma_first_named_unique(hooks, name, k);
    }
}

} // verus!
