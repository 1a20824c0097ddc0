//! The plugin registry: what it keeps for each registered plugin, the invariant that ties
//! the plugins' states to the dependency graph, registration with cycle rejection, and the
//! means to look at what is registered, loaded and enabled.

use crate::cascade::well_founded;
use crate::deps::DependencyGraph;
use crate::deps::edges_with;
use crate::deps::lemma_edges_with_keys;
use crate::deps::nodes_with;
use crate::deps::requirements_of;
use crate::error::LoadPluginError;
use crate::error::RegisterPluginError;
use crate::graph::Edge;
use crate::hook::Hook;
use crate::hook::HookRegistry;
use crate::manifest::PluginManifest;
use crate::reach::descendants;
use crate::reach::has_cycle;
use crate::reach::lemma_descendants_decrease;
use crate::reach::lemma_ordered_distinct;
use crate::reach::lemma_push_contains;
use crate::reach::reaches;
use crate::reach::reaches_or_eq;
use std::any::TypeId;
use std::collections::HashMap;
use vstd::prelude::*;
use vstd::std_specs::iter::IteratorSpec;

verus! {

broadcast use vstd::std_specs::hash::group_hash_axioms;

/// Plugins can be loaded and unloaded by the plugin host, and add functionality to it by
/// registering hooks.
///
/// `H` is the type of the values kept in the hook registry, `Context` the type of the host
/// value handed to every callback. Each callback does nothing unless a plugin overrides it.
pub trait Plugin<H, Context>: Send + Sync {
    /// Called when the host loads this plugin. The plugin registers the hooks it provides.
    ///
    /// The callback is free in what it does to the hook registry, as long as it leaves the
    /// registry in order; whatever goes through the registry's own functions does.
    fn load(&mut self, hooks: &mut HookRegistry<H>, context: &mut Context)
        ensures
            old(hooks).wf() ==> final(hooks).wf(),
    {
    }

    /// Called when the host unloads this plugin. The hooks registered by this plugin are
    /// removed after it returns.
    fn unload(&mut self, context: &mut Context) {
    }

    /// Called when the host enables this plugin.
    fn enable(&mut self, context: &mut Context) {
    }

    /// Called when the host disables this plugin.
    fn disable(&mut self, context: &mut Context) {
    }
}

/// `HashMap::get_mut`: a mutable reference to the value kept under `id`, if there is one.
/// What is written through the reference is what the map holds under `id` afterwards;
/// nothing else in the map changes.
#[verifier::external_body]
pub(crate) fn record_mut<'a, Manifest, P, F>(
    map: &'a mut HashMap<u64, PluginState<Manifest, P, F>>,
    id: u64,
) -> (state: Option<&'a mut PluginState<Manifest, P, F>>)
    ensures
        state is Some <==> old(map)@.contains_key(id),
        state is Some ==> *state->0 == old(map)@[id],
        state is Some ==> final(map)@ == old(map)@.insert(id, *final(state->0)),
        state is None ==> final(map)@ == old(map)@,
{
    map.get_mut(&id)
}

/// What the engine keeps for one registered plugin.
pub struct PluginState<Manifest, P, F> {
    pub manifest: Manifest,
    pub enabled: bool,
    pub ctor: Option<F>,
    pub plugin: Option<P>,
}

/// Manages the plugins of a plugin host.
///
/// `Manifest` is the host's manifest type, `H` the type of hook values, `P` the type of a
/// plugin instance and `F` the type of the functions that construct one.
///
/// Wherever an operation has to go through several requirements of a plugin, or through
/// several plugins that require it, it takes them by the position stored on the edge, and by
/// id where two edges carry the same position: in that order when loading and enabling, in
/// the reverse order when disabling and unloading. The order in which a hash map or the
/// graph happens to list them plays no part.
pub struct PluginRegistry<Manifest, H, P, F> {
    pub(crate) plugins: HashMap<u64, PluginState<Manifest, P, F>>,
    pub(crate) hooks: HookRegistry<H>,
    pub(crate) dependency_graph: DependencyGraph,
}

impl<Manifest: PluginManifest, H, P, F: Fn() -> P> PluginRegistry<Manifest, H, P, F> {
    /// The record of each registered plugin, by id.
    pub open(crate) spec fn records(&self) -> Map<u64, PluginState<Manifest, P, F>> {
        self.plugins@
    }

    /// The declared requirements: an edge from each plugin to what it requires, with the
    /// position of the requirement in the plugin's list.
    pub open(crate) spec fn edges(&self) -> Map<Edge, usize> {
        self.dependency_graph.edges()
    }

    /// The ids that the dependency graph knows.
    pub open(crate) spec fn nodes(&self) -> Set<u64> {
        self.dependency_graph.nodes()
    }

    /// The hook registry as it stands.
    pub open(crate) spec fn hook_registry(&self) -> HookRegistry<H> {
        self.hooks
    }

    /// The ids of the registered plugins.
    pub open spec fn registered(&self) -> Set<u64> {
        self.records().dom()
    }

    /// The ids of the loaded plugins.
    pub open spec fn loaded(&self) -> Set<u64> {
        Set::new(|id: u64| self.records().contains_key(id) && self.records()[id].plugin is Some)
    }

    /// The ids of the enabled plugins.
    pub open spec fn enabled(&self) -> Set<u64> {
        Set::new(|id: u64| self.records().contains_key(id) && self.records()[id].enabled)
    }

    /// The graph is finite and its edges join its nodes.
    pub open(crate) spec fn graph_wf(&self) -> bool {
        self.dependency_graph.wf()
    }

    /// Every registered constructor can be called.
    pub open spec fn constructors_callable(&self) -> bool {
        forall|id: u64| #[trigger]
            self.records().contains_key(id) && self.records()[id].ctor is Some
                ==> self.records()[id].ctor->0.requires(())
    }

    /// The invariant of the engine: every record is filed under its manifest's id; the
    /// dependency graph has no cycle; a plugin is loaded only while everything it requires is
    /// loaded, and enabled only while it is loaded and everything it requires is enabled.
    pub open spec fn wf(&self) -> bool {
        &&& self.graph_wf()
        &&& !has_cycle(self.edges())
        &&& forall|id: u64| #[trigger]
            self.records().contains_key(id) ==> self.records()[id].manifest.spec_id() == id
        &&& self.constructors_callable()
        &&& forall|id: u64| #[trigger] self.enabled().contains(id) ==> self.loaded().contains(id)
        &&& forall|a: u64, b: u64|
            self.loaded().contains(a) && #[trigger] self.edges().contains_key((a, b))
                ==> self.loaded().contains(b)
        &&& forall|a: u64, b: u64|
            self.enabled().contains(a) && #[trigger] self.edges().contains_key((a, b))
                ==> self.enabled().contains(b)
    }

    /// What was set up by registration is as in `other`: the graph, the registered ids, and
    /// each plugin's manifest and constructor.
    pub open spec fn same_setup(&self, other: &Self) -> bool {
        &&& self.edges() == other.edges()
        &&& self.nodes() == other.nodes()
        &&& self.registered() == other.registered()
        &&& forall|id: u64| #[trigger]
            self.records().contains_key(id) ==> {
                &&& self.records()[id].manifest == other.records()[id].manifest
                &&& self.records()[id].ctor == other.records()[id].ctor
            }
    }

    /// The record of `x` is as in `before`, unless `x` has been loaded or unloaded, enabled or
    /// disabled since.
    pub open spec fn record_kept(&self, before: &Self, x: u64) -> bool {
        (before.records().contains_key(x) && (self.loaded().contains(x)
            <==> before.loaded().contains(x)) && (self.enabled().contains(x)
            <==> before.enabled().contains(x))) ==> self.records()[x] == before.records()[x]
    }

    /// The hook registry is as loading leaves it: in order if it was in order in `before`,
    /// and as it was in `before` if no plugin has been loaded since.
    pub open spec fn hooks_kept(&self, before: &Self) -> bool {
        &&& before.hook_registry().wf() ==> self.hook_registry().wf()
        &&& self.loaded() == before.loaded() ==> self.hook_registry() == before.hook_registry()
    }

    /// What the manifest of `a` answers when asked about the manifest of `b`.
    pub open spec fn verdict(&self, a: u64, b: u64) -> Result<(), String> {
        self.records()[a].manifest.spec_dependency_matches(&self.records()[b].manifest)
    }

    /// The manifest of `a` accepts the manifest of `b` as a dependency.
    pub open spec fn accepts(&self, a: u64, b: u64) -> bool {
        self.verdict(a, b) is Ok
    }

    /// Everything that `x` requires is registered and accepted by the manifest of `x`.
    pub open spec fn requirements_met(&self, x: u64) -> bool {
        forall|y: u64| #[trigger]
            self.edges().contains_key((x, y)) ==> self.registered().contains(y) && self.accepts(
                x,
                y,
            )
    }

    /// `x` can be constructed and loaded once what it requires is loaded.
    pub open spec fn ready(&self, x: u64) -> bool {
        &&& self.registered().contains(x)
        &&& self.records()[x].ctor is Some
        &&& self.requirements_met(x)
    }

    /// Loading `id` succeeds: it is registered, and it and everything it requires, directly
    /// or through others, is loaded already or ready to be.
    pub open spec fn loadable(&self, id: u64) -> bool {
        &&& self.registered().contains(id)
        &&& forall|x: u64|
            reaches_or_eq(self.edges(), id, x) && !self.loaded().contains(x) ==> #[trigger] self.ready(x)
    }

    /// Loading `id` with an instance at hand succeeds: as [`Self::loadable`], but `id` itself
    /// needs no constructor.
    pub open spec fn loadable_with(&self, id: u64) -> bool {
        &&& self.registered().contains(id)
        &&& self.loaded().contains(id) || self.requirements_met(id)
        &&& forall|x: u64|
            reaches(self.edges(), id, x) && !self.loaded().contains(x) ==> #[trigger] self.ready(x)
    }

    /// The error `e` names something that keeps `id` from being loaded: `id` is not registered;
    /// or a plugin that `id` needs, not yet loaded, has no constructor, requires a plugin that
    /// is not registered, or rejects one that it requires.
    pub open spec fn explains(&self, id: u64, e: LoadPluginError<u64>) -> bool {
        match e {
            LoadPluginError::NotFound(p) => p == id && !self.registered().contains(id),
            LoadPluginError::MissingConstructor(p) => {
                &&& reaches_or_eq(self.edges(), id, p)
                &&& self.registered().contains(p)
                &&& !self.loaded().contains(p)
                &&& self.records()[p].ctor is None
            },
            LoadPluginError::DependencyNotFound { plugin, dependency } => {
                &&& reaches_or_eq(self.edges(), id, plugin)
                &&& self.registered().contains(plugin)
                &&& !self.loaded().contains(plugin)
                &&& self.edges().contains_key((plugin, dependency))
                &&& !self.registered().contains(dependency)
            },
            LoadPluginError::DependencyMismatch { plugin, dependency, reason } => {
                &&& reaches_or_eq(self.edges(), id, plugin)
                &&& self.registered().contains(plugin)
                &&& !self.loaded().contains(plugin)
                &&& self.edges().contains_key((plugin, dependency))
                &&& self.registered().contains(dependency)
                &&& self.verdict(plugin, dependency) == Err::<(), String>(reason)
            },
        }
    }

    /// What loading `id` comes to where `loaded` are the plugins that are loaded: the plugins
    /// that are loaded afterwards, and what kept the loading from going on, if anything did.
    ///
    /// A plugin that is not registered is not found. A loaded plugin stays as it is. For any
    /// other, its requirements are dealt with in visiting order, see
    /// [`Self::requirements_outcome`]; then the plugin is loaded if it has a constructor.
    pub open spec fn load_outcome(&self, loaded: Set<u64>, id: u64) -> (
        Set<u64>,
        Option<LoadPluginError<u64>>,
    )
        decreases
            descendants(self.edges(), self.nodes(), id).len(),
            requirements_of(self.edges(), id).len() + 1,
        when well_founded(self.edges(), self.nodes())
    {
        if !self.registered().contains(id) {
            (loaded, Some(LoadPluginError::NotFound(id)))
        } else if loaded.contains(id) {
            (loaded, None)
        } else {
            let (after, failure) = self.requirements_outcome(loaded, id, 0);
            if failure is Some {
                (after, failure)
            } else if self.records()[id].ctor is None {
                (after, Some(LoadPluginError::MissingConstructor(id)))
            } else {
                (after.insert(id), None)
            }
        }
    }

    /// What loading the requirements of `id` comes to, from position `k` of its list on. Each
    /// requirement must be registered and accepted by the manifest of `id`, and is then
    /// loaded; the first failure ends it, and what was loaded until then stays loaded.
    pub open spec fn requirements_outcome(&self, loaded: Set<u64>, id: u64, k: int) -> (
        Set<u64>,
        Option<LoadPluginError<u64>>,
    )
        decreases
            descendants(self.edges(), self.nodes(), id).len(),
            requirements_of(self.edges(), id).len() - k,
        when well_founded(self.edges(), self.nodes()) && k >= 0
    {
        let requirements = requirements_of(self.edges(), id);
        if k >= requirements.len() {
            (loaded, None)
        } else {
            let dependency = requirements[k].0;
            if !self.registered().contains(dependency) {
                (loaded, Some(LoadPluginError::DependencyNotFound { plugin: id, dependency }))
            } else if self.verdict(id, dependency) is Err {
                (
                    loaded,
                    Some(
                        LoadPluginError::DependencyMismatch {
                            plugin: id,
                            dependency,
                            reason: self.verdict(id, dependency)->Err_0,
                        },
                    ),
                )
            } else if !self.edges().contains_key((id, dependency)) {
                // Not so for an entry of a list of requirements.
                (loaded, None)
            } else {
                proof {
                    lemma_descendants_decrease(self.edges(), self.nodes(), id, dependency);
                }
                let (after, failure) = self.load_outcome(loaded, dependency);
                if failure is Some {
                    (after, failure)
                } else {
                    self.requirements_outcome(after, id, k + 1)
                }
            }
        }
    }

    /// What loading `id` with an instance at hand comes to: as [`Self::load_outcome`], but
    /// `id` itself needs no constructor.
    pub open spec fn load_with_outcome(&self, loaded: Set<u64>, id: u64) -> (
        Set<u64>,
        Option<LoadPluginError<u64>>,
    ) {
        if !self.registered().contains(id) {
            (loaded, Some(LoadPluginError::NotFound(id)))
        } else if loaded.contains(id) {
            (loaded, None)
        } else {
            let (after, failure) = self.requirements_outcome(loaded, id, 0);
            if failure is Some {
                (after, failure)
            } else {
                (after.insert(id), None)
            }
        }
    }

    /// Construct an empty plugin registry.
    pub fn new() -> (registry: Self)
        ensures
            registry.wf(),
            registry.records() =~= Map::empty(),
            registry.edges() =~= Map::empty(),
            registry.nodes() =~= Set::empty(),
            registry.hook_registry().wf(),
            forall|slot: TypeId, plugin: u64| #[trigger]
                registry.hook_registry().hooks_of(slot, plugin) == Seq::<Hook<H>>::empty(),
    {
        Self::with_capacity(0)
    }

    /// Construct an empty plugin registry with room for `count` plugins.
    pub fn with_capacity(count: usize) -> (registry: Self)
        ensures
            registry.wf(),
            registry.records() =~= Map::empty(),
            registry.edges() =~= Map::empty(),
            registry.nodes() =~= Set::empty(),
            registry.hook_registry().wf(),
            forall|slot: TypeId, plugin: u64| #[trigger]
                registry.hook_registry().hooks_of(slot, plugin) == Seq::<Hook<H>>::empty(),
    {
        PluginRegistry {
            plugins: HashMap::with_capacity(count),
            hooks: HookRegistry::new(),
            dependency_graph: DependencyGraph::with_capacity(count),
        }
    }

    /// Determine whether a plugin with the given plugin id is registered.
    pub fn is_registered(&self, id: u64) -> (found: bool)
        ensures
            found == self.registered().contains(id),
    {
        self.plugins.contains_key(&id)
    }

    /// Determine whether a plugin with the given plugin id is currently loaded.
    pub fn is_loaded(&self, id: u64) -> (found: bool)
        ensures
            found == self.loaded().contains(id),
    {
        match self.plugins.get(&id) {
            Some(state) => state.plugin.is_some(),
            None => false,
        }
    }

    /// Determine whether a plugin with the given plugin id is currently enabled.
    pub fn is_enabled(&self, id: u64) -> (found: bool)
        ensures
            found == self.enabled().contains(id),
    {
        match self.plugins.get(&id) {
            Some(state) => state.enabled,
            None => false,
        }
    }

    /// Get a reference to the hook registry for managing plugin hooks.
    pub fn hooks(&self) -> (hooks: &HookRegistry<H>)
        ensures
            *hooks == self.hook_registry(),
    {
        &self.hooks
    }

    /// Get the number of registered plugins.
    pub fn plugin_count(&self) -> (count: usize)
        ensures
            count == self.registered().len(),
    {
        self.plugins.len()
    }

    /// Get a mutable reference to the hook registry for managing plugin hooks.
    pub fn hooks_mut(&mut self) -> (hooks: &mut HookRegistry<H>)
        ensures
            *hooks == old(self).hook_registry(),
            final(self).hook_registry() == *final(hooks),
            final(self).records() == old(self).records(),
            final(self).edges() == old(self).edges(),
            final(self).nodes() == old(self).nodes(),
            old(self).wf() ==> final(self).wf(),
    {
        proof {
            assert forall|other: Self|
                other.plugins == self.plugins && other.dependency_graph
                    == self.dependency_graph && self.wf() implies #[trigger] other.wf() by {
                self.lemma_wf_depends_on(&other);
            }
        }
        &mut self.hooks
    }

    /// The dependency graph of a registry that meets its invariant is finite and without a
    /// cycle.
    pub proof fn lemma_graph_well_founded(&self)
        requires
            self.wf(),
        ensures
            well_founded(self.edges(), self.nodes()),
    {
    }

    /// Where the plugin `id` alone changed its state, and no edge came to the graph but from
    /// `id`, the states of the plugins follow the graph as before: who is enabled is loaded,
    /// and who is loaded or enabled has its requirements loaded or enabled. For that, `id`
    /// must have its requirements in the state it is in itself, and a state that `id` has
    /// left must have been left by all that require it.
    pub proof fn lemma_states_follow_graph(&self, before: &Self, id: u64)
        requires
            before.wf(),
            forall|a: u64, b: u64| #[trigger]
                self.edges().contains_key((a, b)) ==> a == id || before.edges().contains_key(
                    (a, b),
                ),
            forall|x: u64|
                x != id ==> (self.loaded().contains(x) <==> before.loaded().contains(x)),
            forall|x: u64|
                x != id ==> (self.enabled().contains(x) <==> before.enabled().contains(x)),
            self.enabled().contains(id) ==> self.loaded().contains(id),
            self.loaded().contains(id) ==> forall|y: u64| #[trigger]
                self.edges().contains_key((id, y)) ==> self.loaded().contains(y),
            self.enabled().contains(id) ==> forall|y: u64| #[trigger]
                self.edges().contains_key((id, y)) ==> self.enabled().contains(y),
            before.loaded().contains(id) && !self.loaded().contains(id) ==> forall|a: u64| #[trigger]
                self.edges().contains_key((a, id)) ==> !self.loaded().contains(a),
            before.enabled().contains(id) && !self.enabled().contains(id) ==> forall|a: u64| #[trigger]
                self.edges().contains_key((a, id)) ==> !self.enabled().contains(a),
        ensures
            forall|x: u64| #[trigger] self.enabled().contains(x) ==> self.loaded().contains(x),
            forall|a: u64, b: u64|
                self.loaded().contains(a) && #[trigger] self.edges().contains_key((a, b))
                    ==> self.loaded().contains(b),
            forall|a: u64, b: u64|
                self.enabled().contains(a) && #[trigger] self.edges().contains_key((a, b))
                    ==> self.enabled().contains(b),
    {
        assert forall|x: u64| #[trigger] self.enabled().contains(x) implies self.loaded().contains(
            x,
        ) by {
            if x != id {
                assert(before.enabled().contains(x));
                assert(before.loaded().contains(x));
            }
        }
        assert forall|a: u64, b: u64|
            self.loaded().contains(a) && #[trigger] self.edges().contains_key(
                (a, b),
            ) implies self.loaded().contains(b) by {
            if a != id {
                assert(before.loaded().contains(a));
                assert(before.edges().contains_key((a, b)));
                assert(before.loaded().contains(b));
            }
        }
        assert forall|a: u64, b: u64|
            self.enabled().contains(a) && #[trigger] self.edges().contains_key(
                (a, b),
            ) implies self.enabled().contains(b) by {
            if a != id {
                assert(before.enabled().contains(a));
                assert(before.edges().contains_key((a, b)));
                assert(before.enabled().contains(b));
            }
        }
    }

    /// The invariant speaks of the records and of the dependency graph, not of the hooks.
    proof fn lemma_wf_depends_on(&self, other: &Self)
        requires
            self.wf(),
            other.records() == self.records(),
            other.edges() == self.edges(),
            other.nodes() == self.nodes(),
            other.graph_wf(),
        ensures
            other.wf(),
    {
        assert(other.loaded() =~= self.loaded());
        assert(other.enabled() =~= self.enabled());
    }

    /// Get the ids of all registered plugins, in no particular order.
    pub fn plugin_ids(&self) -> (ids: Vec<u64>)
        ensures
            ids@.no_duplicates(),
            ids@.to_set() == self.registered(),
    {
        let mut ids: Vec<u64> = Vec::new();
        let ghost all = self.plugins.keys().remaining();
        for id in iter: self.plugins.keys()
            invariant
                iter.seq() == all,
                ids@.len() == iter.index(),
                forall|j: int| 0 <= j < ids@.len() ==> ids@[j] == *all[j],
        {
            ids.push(*id);
        }
        proof {
            assert(ids@ =~= all.unref());
        }
        ids
    }

    /// The ids of the plugins that are loaded, or of those that are enabled.
    fn ids_of_state(&self, enabled: bool) -> (ids: Vec<u64>)
        ensures
            ids@.no_duplicates(),
            ids@.to_set() == if enabled {
                self.enabled()
            } else {
                self.loaded()
            },
    {
        let ghost wanted = if enabled {
            self.enabled()
        } else {
            self.loaded()
        };
        let all = self.plugin_ids();
        let mut ids: Vec<u64> = Vec::new();
        let mut k: usize = 0;
        while k < all.len()
            invariant
                0 <= k <= all@.len(),
                all@.no_duplicates(),
                all@.to_set() == self.registered(),
                wanted == if enabled {
                    self.enabled()
                } else {
                    self.loaded()
                },
                ids@.no_duplicates(),
                forall|x: u64|
                    #[trigger] ids@.contains(x) <==> (wanted.contains(x) && exists|j: int|
                        0 <= j < k && all@[j] == x),
            decreases all@.len() - k,
        {
            let id = all[k];
            let ghost done = ids@;
            let take = if enabled {
                self.is_enabled(id)
            } else {
                self.is_loaded(id)
            };
            if take {
                ids.push(id);
                proof {
                    lemma_push_contains(done, id);
                    assert(!done.contains(id)) by {
                        if done.contains(id) {
                            let j = choose|j: int| 0 <= j < k && all@[j] == id;
                            assert(all@[j] == all@[k as int]);
                        }
                    }
                    assert(ids@.no_duplicates()) by {
                        assert forall|i: int, j: int| 0 <= i < j < ids@.len() implies ids@[i]
                            != ids@[j] by {
                            if j == done.len() {
                                assert(done.contains(done[i]));
                            }
                        }
                        lemma_ordered_distinct(ids@);
                    }
                }
            }
            k += 1;
            proof {
                assert forall|x: u64|
                    #[trigger] ids@.contains(x) <==> (wanted.contains(x) && exists|j: int|
                        0 <= j < k && all@[j] == x) by {
                    if done.contains(x) {
                        let j = choose|j: int| 0 <= j < k - 1 && all@[j] == x;
                        assert(0 <= j < k && all@[j] == x);
                    }
                    if wanted.contains(x) && (exists|j: int| 0 <= j < k && all@[j] == x) {
                        let j = choose|j: int| 0 <= j < k && all@[j] == x;
                        if j < k - 1 {
                            assert(0 <= j < k - 1 && all@[j] == x);
                        }
                    }
                }
            }
        }
        proof {
            assert forall|x: u64| ids@.to_set().contains(x) <==> wanted.contains(x) by {
                if wanted.contains(x) {
                    assert(all@.to_set().contains(x));
                    let j = choose|j: int| 0 <= j < all@.len() && all@[j] == x;
                    assert(0 <= j < k && all@[j] == x);
                }
            }
            assert(ids@.to_set() =~= wanted);
        }
        ids
    }

    /// Get the ids of all currently loaded plugins, in no particular order.
    pub fn loaded_plugin_ids(&self) -> (ids: Vec<u64>)
        ensures
            ids@.no_duplicates(),
            ids@.to_set() == self.loaded(),
    {
        self.ids_of_state(false)
    }

    /// Get the ids of all currently enabled plugins, in no particular order.
    pub fn enabled_plugin_ids(&self) -> (ids: Vec<u64>)
        ensures
            ids@.no_duplicates(),
            ids@.to_set() == self.enabled(),
    {
        self.ids_of_state(true)
    }

    /// Get the number of currently loaded plugins.
    pub fn loaded_plugin_count(&self) -> (count: usize)
        ensures
            count == self.loaded().len(),
    {
        let ids = self.loaded_plugin_ids();
        proof {
            ids@.unique_seq_to_set();
        }
        ids.len()
    }

    /// Get the number of currently enabled plugins.
    pub fn enabled_plugin_count(&self) -> (count: usize)
        ensures
            count == self.enabled().len(),
    {
        let ids = self.enabled_plugin_ids();
        proof {
            ids@.unique_seq_to_set();
        }
        ids.len()
    }

    /// Get a reference to the plugin instance of the plugin with the given id if it is
    /// currently loaded.
    pub fn get_loaded_plugin(&self, id: u64) -> (plugin: Option<&P>)
        ensures
            plugin is Some <==> self.loaded().contains(id),
            plugin is Some ==> Some(*plugin->0) == self.records()[id].plugin,
    {
        match self.plugins.get(&id) {
            Some(state) => state.plugin.as_ref(),
            None => None,
        }
    }

    /// Get a reference to the plugin instance of the plugin with the given id if it is
    /// currently enabled.
    pub fn get_enabled_plugin(&self, id: u64) -> (plugin: Option<&P>)
        ensures
            plugin is Some <==> self.enabled().contains(id) && self.loaded().contains(id),
            plugin is Some ==> Some(*plugin->0) == self.records()[id].plugin,
    {
        match self.plugins.get(&id) {
            Some(state) => {
                if state.enabled {
                    state.plugin.as_ref()
                } else {
                    None
                }
            },
            None => None,
        }
    }

    /// Get a mutable reference to the plugin instance of the plugin with the given id if it
    /// is currently loaded.
    pub fn get_loaded_plugin_mut(&mut self, id: u64) -> (plugin: Option<&mut P>)
        ensures
            old(self).wf() ==> final(self).wf(),
            final(self).same_setup(old(self)),
            final(self).loaded() == old(self).loaded(),
            final(self).enabled() == old(self).enabled(),
            final(self).hook_registry() == old(self).hook_registry(),
            plugin is Some <==> old(self).loaded().contains(id),
            plugin is Some ==> Some(*plugin->0) == old(self).records()[id].plugin,
            plugin is Some ==> final(self).records()[id].plugin == Some(*final(plugin->0)),
            forall|x: u64|
                x != id && #[trigger] old(self).records().contains_key(x)
                    ==> final(self).records()[x] == old(self).records()[x],
            plugin is None ==> final(self).records() == old(self).records(),
    {
        proof {
            self.lemma_instances_do_not_matter();
        }
        match record_mut(&mut self.plugins, id) {
            Some(state) => state.plugin.as_mut(),
            None => None,
        }
    }

    /// Get a mutable reference to the plugin instance of the plugin with the given id if it
    /// is currently enabled.
    pub fn get_enabled_plugin_mut(&mut self, id: u64) -> (plugin: Option<&mut P>)
        ensures
            old(self).wf() ==> final(self).wf(),
            final(self).same_setup(old(self)),
            final(self).loaded() == old(self).loaded(),
            final(self).enabled() == old(self).enabled(),
            final(self).hook_registry() == old(self).hook_registry(),
            plugin is Some <==> old(self).enabled().contains(id) && old(self).loaded().contains(id),
            plugin is Some ==> Some(*plugin->0) == old(self).records()[id].plugin,
            plugin is Some ==> final(self).records()[id].plugin == Some(*final(plugin->0)),
            forall|x: u64|
                x != id && #[trigger] old(self).records().contains_key(x)
                    ==> final(self).records()[x] == old(self).records()[x],
            plugin is None ==> final(self).records() == old(self).records(),
    {
        if self.is_enabled(id) {
            self.get_loaded_plugin_mut(id)
        } else {
            None
        }
    }

    /// A state that differs only in the instances of loaded plugins meets the invariant as
    /// well, has the same setup and has the same plugins loaded and enabled.
    proof fn lemma_instances_do_not_matter(&self)
        ensures
            forall|other: Self|
                self.differs_in_instances(&other) && self.wf() ==> #[trigger] other.wf(),
            forall|other: Self|
                self.differs_in_instances(&other) ==> #[trigger] other.same_setup(self),
            forall|other: Self|
                self.differs_in_instances(&other) ==> #[trigger] other.loaded() == self.loaded(),
            forall|other: Self|
                self.differs_in_instances(&other) ==> #[trigger] other.enabled() == self.enabled(),
    {
        assert forall|other: Self| #[trigger] self.differs_in_instances(&other) implies {
            &&& self.wf() ==> other.wf()
            &&& other.same_setup(self)
            &&& other.loaded() == self.loaded()
            &&& other.enabled() == self.enabled()
        } by {
            assert(other.registered() =~= self.registered());
            assert forall|x: u64| other.loaded().contains(x) <==> self.loaded().contains(x) by {
                if other.records().contains_key(x) {
                    assert(self.records().contains_key(x));
                }
            }
            assert forall|x: u64| other.enabled().contains(x) <==> self.enabled().contains(x) by {
                if other.records().contains_key(x) {
                    assert(self.records().contains_key(x));
                }
            }
            assert(other.loaded() =~= self.loaded());
            assert(other.enabled() =~= self.enabled());
            if self.wf() {
                assert forall|x: u64| #[trigger]
                    other.records().contains_key(x) implies other.records()[x].manifest.spec_id()
                    == x by {
                    assert(self.records().contains_key(x));
                }
                assert forall|x: u64| #[trigger]
                    other.records().contains_key(x)
                    && other.records()[x].ctor is Some implies other.records()[x].ctor->0.requires(
                    (),
                ) by {
                    assert(self.records().contains_key(x));
                }
            }
        }
    }

    /// `other` is this state but for the instances of loaded plugins.
    pub open(crate) spec fn differs_in_instances(&self, other: &Self) -> bool {
        &&& other.dependency_graph == self.dependency_graph
        &&& other.hooks == self.hooks
        &&& forall|x: u64| #[trigger] other.plugins@.contains_key(x) <==> self.plugins@.contains_key(x)
        &&& forall|x: u64| #[trigger]
            self.plugins@.contains_key(x) ==> {
                &&& other.plugins@[x].manifest == self.plugins@[x].manifest
                &&& other.plugins@[x].ctor == self.plugins@[x].ctor
                &&& other.plugins@[x].enabled == self.plugins@[x].enabled
                &&& other.plugins@[x].plugin is Some <==> self.plugins@[x].plugin is Some
            }
    }

    /// Get a reference to the plugin manifest by its id if that plugin has been registered.
    pub fn get_manifest(&self, id: u64) -> (manifest: Option<&Manifest>)
        ensures
            manifest is Some <==> self.registered().contains(id),
            manifest is Some ==> *manifest->0 == self.records()[id].manifest,
    {
        match self.plugins.get(&id) {
            Some(state) => Some(&state.manifest),
            None => None,
        }
    }

    /// Register a plugin under the id that its manifest gives, unless a plugin with that id
    /// is registered already or its declared dependencies would close a cycle. The plugin
    /// starts out unloaded and disabled. Without a constructor it can only be loaded with
    /// [`PluginRegistry::load_with`].
    ///
    /// Each declared dependency becomes an edge of the dependency graph that carries its
    /// position in the declared list; where a dependency is listed more than once, the later
    /// position counts. The dependencies need not be registered yet.
    ///
    /// A rejected registration changes nothing: the records and the dependency graph are
    /// exactly as before.
    pub fn register(&mut self, manifest: Manifest, ctor: Option<F>) -> (result: Result<
        u64,
        RegisterPluginError<u64>,
    >)
        requires
            old(self).wf(),
            ctor is Some ==> ctor->0.requires(()),
        ensures
            final(self).wf(),
            final(self).hook_registry() == old(self).hook_registry(),
            result == registration_verdict(
                old(self).registered(),
                old(self).edges(),
                manifest.spec_id(),
                manifest.spec_dependencies(),
            ),
            result is Ok ==> {
                &&& final(self).records() == old(self).records().insert(
                    manifest.spec_id(),
                    (PluginState { manifest, enabled: false, ctor, plugin: None }),
                )
                &&& final(self).edges() == edges_with(
                    old(self).edges(),
                    manifest.spec_id(),
                    manifest.spec_dependencies(),
                )
                &&& final(self).nodes() == nodes_with(
                    old(self).nodes(),
                    manifest.spec_id(),
                    manifest.spec_dependencies(),
                )
            },
            result is Err ==> {
                &&& final(self).records() == old(self).records()
                &&& final(self).edges() == old(self).edges()
                &&& final(self).nodes() == old(self).nodes()
            },
    {
        let id = manifest.id();
        if self.plugins.contains_key(&id) {
            return Err(RegisterPluginError::Duplicate(id));
        }
        let ghost e0 = self.edges();
        let ghost deps = manifest.spec_dependencies();
        let accepted = self.dependency_graph.declare(id, manifest.dependencies());
        if !accepted {
            proof {
                assert(self.records() == old(self).records());
                assert(self.edges() == old(self).edges());
                assert(self.graph_wf());
                assert(!has_cycle(self.edges()));
                assert(self.constructors_callable());
                assert(self.loaded() =~= old(self).loaded());
                assert(self.enabled() =~= old(self).enabled());
            }
            return Err(RegisterPluginError::CyclicDependency(id));
        }
        self.plugins.insert(id, PluginState { manifest, enabled: false, ctor, plugin: None });
        proof {
            assert(final(self).records() == old(self).records().insert(
                id,
                (PluginState { manifest, enabled: false, ctor, plugin: None }),
            ));
            assert forall|a: u64, b: u64| #[trigger]
                self.edges().contains_key((a, b)) implies a == id || e0.contains_key((a, b)) by {
                lemma_edges_with_keys(e0, id, deps, a, b);
            }
            self.lemma_states_follow_graph(old(self), id);
        }
        Ok(id)
    }
}

impl<Manifest: PluginManifest, H, P, F: Fn() -> P> Default for PluginRegistry<Manifest, H, P, F> {
    /// An empty plugin registry.
    fn default() -> (registry: Self)
        ensures
            registry.wf(),
            registry.records() =~= Map::empty(),
            registry.edges() =~= Map::empty(),
            registry.nodes() =~= Set::empty(),
            registry.hook_registry().wf(),
            forall|slot: TypeId, plugin: u64| #[trigger]
                registry.hook_registry().hooks_of(slot, plugin) == Seq::<Hook<H>>::empty(),
    {
        Self::new()
    }
}

/// What a registration answers: the id where it is accepted, `Duplicate` where a plugin with
/// that id is registered, and `CyclicDependency` where the declared dependencies would leave
/// a cycle in the graph.
pub open spec fn registration_verdict(
    registered: Set<u64>,
    edges: Map<Edge, usize>,
    id: u64,
    deps: Seq<u64>,
) -> Result<u64, RegisterPluginError<u64>> {
    if registered.contains(id) {
        Err(RegisterPluginError::Duplicate(id))
    } else if has_cycle(edges_with(edges, id, deps)) {
        Err(RegisterPluginError::CyclicDependency(id))
    } else {
        Ok(id)
    }
}

} // verus!
