//! The lifecycle operations of the engine: loading and enabling a plugin with everything it
//! requires, and disabling, unloading and removing a plugin with everything that requires it.

use crate::cascade::lemma_cascade_end;
use crate::cascade::lemma_cascade_step;
use crate::cascade::taken_down;
use crate::cascade::taken_down_before;
use crate::cascade::well_founded;
use crate::deps::dependents_of;
use crate::deps::has_dependents;
use crate::deps::lists_edges_from;
use crate::deps::lists_edges_into;
use crate::deps::requirements_of;
use crate::error::LoadPluginError;
use crate::graph::edges_without_node;
use crate::hook::lemma_owned_by_none_of_none;
use crate::hook::lemma_owned_by_none_twice;
use crate::hook::owned_by_none;
use crate::manifest::PluginManifest;
use crate::plugin::Plugin;
use crate::plugin::PluginRegistry;
use crate::reach::ancestors;
use crate::reach::dependents_first;
use crate::reach::descendants;
use crate::reach::lemma_ancestors_decrease;
use crate::reach::lemma_closed_reaches;
use crate::reach::lemma_concat_contains;
use crate::reach::lemma_descendants_decrease;
use crate::reach::lemma_edge_reaches;
use crate::reach::lemma_push_contains;
use crate::reach::lemma_reach_then_step;
use crate::reach::lemma_reached_from_any_step;
use crate::reach::lemma_reaches_through_target;
use crate::reach::lemma_step_then_reach;
use crate::reach::reaches;
use crate::reach::reaches_any;
use crate::reach::reaches_or_eq;
use crate::reach::required_by;
use crate::reach::required_by_any;
use crate::reach::requiring;
use crate::reach::requiring_any;
use std::any::TypeId;
use vstd::prelude::*;

verus! {

broadcast use vstd::std_specs::hash::group_hash_axioms;

impl<Manifest: PluginManifest, H, P, F: Fn() -> P> PluginRegistry<Manifest, H, P, F> {
    /// Makes an instance of plugin `id` with its registered constructor, if it has one.
    fn construct(&self, id: u64) -> (instance: Option<P>)
        requires
            self.wf(),
            self.registered().contains(id),
        ensures
            instance is Some <==> self.records()[id].ctor is Some,
    {
        match self.plugins.get(&id) {
            Some(state) => {
                match &state.ctor {
                    Some(ctor) => Some(ctor()),
                    None => None,
                }
            },
            None => None,
        }
    }

    /// Calls the load callback of `instance` and keeps it as the instance of plugin `id`.
    /// This is the only place where a load callback runs: everything that the plugin
    /// requires is loaded by then.
    fn run_load<Context>(&mut self, id: u64, instance: P, context: &mut Context) where
        P: Plugin<H, Context>,

        requires
            old(self).wf(),
            old(self).registered().contains(id),
            !old(self).loaded().contains(id),
            forall|y: u64| #[trigger]
                old(self).edges().contains_key((id, y)) ==> old(self).loaded().contains(y),
        ensures
            final(self).wf(),
            final(self).same_setup(old(self)),
            final(self).loaded() == old(self).loaded().insert(id),
            final(self).enabled() == old(self).enabled(),
            old(self).hook_registry().wf() ==> final(self).hook_registry().wf(),
            forall|x: u64|
                x != id && #[trigger] old(self).records().contains_key(x)
                    ==> final(self).records()[x] == old(self).records()[x],
    {
        let mut instance = instance;
        instance.load(&mut self.hooks, context);
        let mut state = self.plugins.remove(&id).unwrap();
        state.plugin = Some(instance);
        self.plugins.insert(id, state);
        proof {
            assert(self.registered() =~= old(self).registered());
            assert(self.loaded() =~= old(self).loaded().insert(id));
            assert(self.enabled() =~= old(self).enabled());
            self.lemma_states_follow_graph(old(self), id);
        }
    }

    /// Calls the unload callback of plugin `id`, discards the instance and removes the
    /// plugin's hooks. This is the only place where an unload callback runs: no plugin that
    /// requires `id` is loaded by then, and `id` is disabled.
    fn run_unload<Context>(&mut self, id: u64, context: &mut Context) where P: Plugin<H, Context>
        requires
            old(self).wf(),
            old(self).loaded().contains(id),
            !old(self).enabled().contains(id),
            forall|a: u64| #[trigger]
                old(self).edges().contains_key((a, id)) ==> !old(self).loaded().contains(a),
        ensures
            final(self).wf(),
            final(self).same_setup(old(self)),
            final(self).loaded() == old(self).loaded().remove(id),
            final(self).enabled() == old(self).enabled(),
            forall|x: u64|
                x != id && #[trigger] old(self).records().contains_key(x)
                    ==> final(self).records()[x] == old(self).records()[x],
            old(self).hook_registry().wf() ==> final(self).hook_registry().wf(),
            forall|slot: TypeId, plugin: u64| #[trigger]
                final(self).hook_registry().hooks_of(slot, plugin) == if plugin == id {
                    Seq::empty()
                } else {
                    old(self).hook_registry().hooks_of(slot, plugin)
                },
            forall|slot: TypeId| #[trigger]
                final(self).hook_registry().slot_entries(slot) == old(
                    self,
                ).hook_registry().slot_entries(slot).filter(
                    owned_by_none(Set::empty().insert(id)),
                ),
    {
        let mut state = self.plugins.remove(&id).unwrap();
        match &mut state.plugin {
            Some(plugin) => {
                plugin.unload(context);
            },
            None => {},
        }
        state.plugin = None;
        self.plugins.insert(id, state);
        self.hooks.remove_plugin_hooks(id);
        proof {
            assert(self.registered() =~= old(self).registered());
            assert(self.loaded() =~= old(self).loaded().remove(id));
            assert(self.enabled() =~= old(self).enabled());
            self.lemma_states_follow_graph(old(self), id);
        }
    }

    /// Calls the enable callback of plugin `id` and marks it enabled. This is the only place
    /// where an enable callback runs: the plugin is loaded and everything that it requires is
    /// enabled by then.
    fn run_enable<Context>(&mut self, id: u64, context: &mut Context) where P: Plugin<H, Context>
        requires
            old(self).wf(),
            old(self).loaded().contains(id),
            !old(self).enabled().contains(id),
            forall|y: u64| #[trigger]
                old(self).edges().contains_key((id, y)) ==> old(self).enabled().contains(y),
        ensures
            final(self).wf(),
            final(self).same_setup(old(self)),
            final(self).loaded() == old(self).loaded(),
            final(self).enabled() == old(self).enabled().insert(id),
            final(self).hook_registry() == old(self).hook_registry(),
            forall|x: u64|
                x != id && #[trigger] old(self).records().contains_key(x)
                    ==> final(self).records()[x] == old(self).records()[x],
    {
        let mut state = self.plugins.remove(&id).unwrap();
        match &mut state.plugin {
            Some(plugin) => {
                plugin.enable(context);
            },
            None => {},
        }
        state.enabled = true;
        self.plugins.insert(id, state);
        proof {
            assert(self.registered() =~= old(self).registered());
            assert(self.loaded() =~= old(self).loaded());
            assert(self.enabled() =~= old(self).enabled().insert(id));
            self.lemma_states_follow_graph(old(self), id);
        }
    }

    /// Calls the disable callback of plugin `id` and marks it disabled. This is the only
    /// place where a disable callback runs: no plugin that requires `id` is enabled by then.
    fn run_disable<Context>(&mut self, id: u64, context: &mut Context) where P: Plugin<H, Context>
        requires
            old(self).wf(),
            old(self).enabled().contains(id),
            forall|a: u64| #[trigger]
                old(self).edges().contains_key((a, id)) ==> !old(self).enabled().contains(a),
        ensures
            final(self).wf(),
            final(self).same_setup(old(self)),
            final(self).loaded() == old(self).loaded(),
            final(self).enabled() == old(self).enabled().remove(id),
            final(self).hook_registry() == old(self).hook_registry(),
            forall|x: u64|
                x != id && #[trigger] old(self).records().contains_key(x)
                    ==> final(self).records()[x] == old(self).records()[x],
    {
        let mut state = self.plugins.remove(&id).unwrap();
        match &mut state.plugin {
            Some(plugin) => {
                plugin.disable(context);
            },
            None => {},
        }
        state.enabled = false;
        self.plugins.insert(id, state);
        proof {
            assert(self.registered() =~= old(self).registered());
            assert(self.loaded() =~= old(self).loaded());
            assert(self.enabled() =~= old(self).enabled().remove(id));
            self.lemma_states_follow_graph(old(self), id);
        }
    }
}

impl<Manifest: PluginManifest, H, P, F: Fn() -> P> PluginRegistry<Manifest, H, P, F> {
    /// Disable the plugin with the given plugin id, after every enabled plugin that requires
    /// it, directly or through others, has been disabled. Returns the ids of the plugins
    /// disabled, in the order in which they were disabled. Does nothing if the plugin is not
    /// enabled.
    pub fn disable<Context>(&mut self, id: u64, context: &mut Context) -> (disabled: Vec<u64>) where
        P: Plugin<H, Context>,

        requires
            old(self).wf(),
        ensures
            final(self).wf(),
            final(self).same_setup(old(self)),
            final(self).loaded() == old(self).loaded(),
            final(self).hook_registry() == old(self).hook_registry(),
            final(self).enabled() == old(self).enabled().difference(
                requiring(old(self).edges(), id),
            ),
            forall|x: u64|
                #[trigger] disabled@.contains(x) <==> (old(self).enabled().contains(x)
                    && reaches_or_eq(old(self).edges(), x, id)),
            disabled@ == taken_down(old(self).edges(), old(self).nodes(), old(self).enabled(), id),
            disabled@.no_duplicates(),
            dependents_first(old(self).edges(), disabled@),
            old(self).enabled().contains(id) ==> disabled@.len() > 0 && disabled@.last() == id,
            forall|x: u64|
                !disabled@.contains(x) && #[trigger] old(self).records().contains_key(x)
                    ==> final(self).records()[x] == old(self).records()[x],
        decreases ancestors(old(self).edges(), old(self).nodes(), id).len(),
    {
        let mut disabled: Vec<u64> = Vec::new();
        let ghost edges = self.edges();
        let ghost nodes = self.nodes();
        let ghost active = self.enabled();
        proof {
            self.lemma_graph_well_founded();
        }
        if !self.is_enabled(id) {
            proof {
                assert forall|x: u64| old(self).enabled().contains(x) implies !reaches_or_eq(
                    edges,
                    x,
                    id,
                ) by {
                    if reaches(edges, x, id) {
                        lemma_closed_reaches(edges, self.enabled(), x, id);
                    }
                }
                assert(self.enabled() =~= old(self).enabled().difference(requiring(edges, id)));
            }
            return disabled;
        }
        let dependents = self.dependency_graph.dependents(id);
        let mut k: usize = dependents.len();
        proof {
            assert(requiring_any(edges, dependents@, k as int) =~= Set::empty());
            assert(self.enabled() =~= old(self).enabled().difference(
                requiring_any(edges, dependents@, k as int),
            ));
        }
        while k > 0
            invariant
                0 <= k <= dependents@.len(),
                self.wf(),
                old(self).wf(),
                self.same_setup(old(self)),
                self.loaded() == old(self).loaded(),
                edges == old(self).edges(),
                nodes == old(self).nodes(),
                self.hook_registry() == old(self).hook_registry(),
                lists_edges_into(dependents@, edges, id),
                self.enabled() == old(self).enabled().difference(
                    requiring_any(edges, dependents@, k as int),
                ),
                forall|x: u64|
                    #[trigger] disabled@.contains(x) <==> (old(self).enabled().contains(x)
                        && reaches_any(edges, x, dependents@, k as int)),
                disabled@.no_duplicates(),
                dependents_first(edges, disabled@),
                forall|x: u64|
                    !disabled@.contains(x) && #[trigger] old(self).records().contains_key(x)
                        ==> self.records()[x] == old(self).records()[x],
                well_founded(edges, nodes),
                active == old(self).enabled(),
                dependents@ == dependents_of(edges, id),
                disabled@ == taken_down_before(edges, nodes, active, id, k as int),
            decreases k,
        {
            let ghost upper = k as int;
            let ghost before = *self;
            let ghost done = disabled@;
            k -= 1;
            let dep = dependents[k].0;
            proof {
                let entry = dependents@[k as int];
                assert(dependents@.contains((entry.0, entry.1)));
                lemma_ancestors_decrease(edges, nodes, dep, id);
            }
            let mut sub = self.disable(dep, context);
            let ghost part = sub@;
            disabled.append(&mut sub);
            proof {
                assert(disabled@ == done + part);
                lemma_cascade_step(
                    edges,
                    active,
                    dependents@,
                    k as int,
                    before.enabled(),
                    self.enabled(),
                    done,
                    part,
                );
                assert forall|x: u64|
                    !disabled@.contains(x) && #[trigger] old(self).records().contains_key(
                        x,
                    ) implies self.records()[x] == old(self).records()[x] by {
                    assert(!done.contains(x) && !part.contains(x));
                    assert(before.records()[x] == old(self).records()[x]);
                    assert(before.records().contains_key(x));
                }
            }
        }
        let ghost before = *self;
        let ghost done = disabled@;
        proof {
            lemma_cascade_end(edges, active, dependents@, id, self.enabled(), done);
        }
        self.run_disable(id, context);
        disabled.push(id);
        proof {
            assert(disabled@ == done.push(id));
            lemma_push_contains(done, id);
            assert forall|x: u64|
                !disabled@.contains(x) && #[trigger] old(self).records().contains_key(
                    x,
                ) implies self.records()[x] == old(self).records()[x] by {
                assert(!done.contains(x) && x != id);
                assert(before.records()[x] == old(self).records()[x]);
                assert(before.records().contains_key(x));
            }
        }
        disabled
    }
}

impl<Manifest: PluginManifest, H, P, F: Fn() -> P> PluginRegistry<Manifest, H, P, F> {
    /// Unload the plugin with the given plugin id. The plugin is disabled first if it is
    /// enabled, with every plugin that requires it; then every loaded plugin that requires it,
    /// directly or through others, is unloaded before the plugin itself. The hooks of each
    /// unloaded plugin are removed. Returns the ids of the plugins unloaded and of those
    /// disabled, each in the order in which it happened. Does nothing if the plugin is not
    /// loaded.
    pub fn unload<Context>(&mut self, id: u64, context: &mut Context) -> (out: (
        Vec<u64>,
        Vec<u64>,
    )) where P: Plugin<H, Context>
        requires
            old(self).wf(),
        ensures
            final(self).wf(),
            final(self).same_setup(old(self)),
            final(self).loaded() == old(self).loaded().difference(requiring(old(self).edges(), id)),
            final(self).enabled() == old(self).enabled().difference(
                requiring(old(self).edges(), id),
            ),
            forall|x: u64|
                #[trigger] out.0@.contains(x) <==> (old(self).loaded().contains(x)
                    && reaches_or_eq(old(self).edges(), x, id)),
            forall|x: u64|
                #[trigger] out.1@.contains(x) <==> (old(self).enabled().contains(x)
                    && reaches_or_eq(old(self).edges(), x, id)),
            out.0@ == taken_down(old(self).edges(), old(self).nodes(), old(self).loaded(), id),
            out.1@ == taken_down(old(self).edges(), old(self).nodes(), old(self).enabled(), id),
            out.0@.no_duplicates(),
            out.1@.no_duplicates(),
            dependents_first(old(self).edges(), out.0@),
            dependents_first(old(self).edges(), out.1@),
            old(self).loaded().contains(id) ==> out.0@.len() > 0 && out.0@.last() == id,
            forall|x: u64|
                !out.0@.contains(x) && #[trigger] old(self).records().contains_key(x)
                    ==> final(self).records()[x] == old(self).records()[x],
            old(self).hook_registry().wf() ==> final(self).hook_registry().wf(),
            forall|slot: TypeId, plugin: u64| #[trigger]
                final(self).hook_registry().hooks_of(slot, plugin) == if out.0@.contains(plugin) {
                    Seq::empty()
                } else {
                    old(self).hook_registry().hooks_of(slot, plugin)
                },
            forall|slot: TypeId| #[trigger]
                final(self).hook_registry().slot_entries(slot) == old(
                    self,
                ).hook_registry().slot_entries(slot).filter(owned_by_none(out.0@.to_set())),
        decreases ancestors(old(self).edges(), old(self).nodes(), id).len(),
    {
        let mut unloaded: Vec<u64> = Vec::new();
        let ghost edges = self.edges();
        let ghost nodes = self.nodes();
        let ghost active = self.loaded();
        proof {
            self.lemma_graph_well_founded();
        }
        if !self.is_loaded(id) {
            proof {
                assert forall|x: u64| old(self).loaded().contains(x) implies !reaches_or_eq(
                    edges,
                    x,
                    id,
                ) by {
                    if reaches(edges, x, id) {
                        lemma_closed_reaches(edges, self.loaded(), x, id);
                    }
                }
                assert(self.loaded() =~= old(self).loaded().difference(requiring(edges, id)));
                assert(self.enabled() =~= old(self).enabled().difference(requiring(edges, id)));
                assert(unloaded@.to_set() =~= Set::empty());
                assert forall|slot: TypeId| #[trigger]
                    self.hook_registry().slot_entries(slot) == old(
                        self,
                    ).hook_registry().slot_entries(slot).filter(
                        owned_by_none(unloaded@.to_set()),
                    ) by {
                    lemma_owned_by_none_of_none(old(self).hook_registry().slot_entries(slot));
                }
            }
            return (unloaded, Vec::new());
        }
        let disabled = self.disable(id, context);
        let ghost mid = *self;
        let dependents = self.dependency_graph.dependents(id);
        let mut k: usize = dependents.len();
        proof {
            assert(requiring_any(edges, dependents@, k as int) =~= Set::empty());
            assert(self.loaded() =~= old(self).loaded().difference(
                requiring_any(edges, dependents@, k as int),
            ));
            assert(unloaded@.to_set() =~= Set::empty());
            assert forall|slot: TypeId| #[trigger]
                self.hook_registry().slot_entries(slot) == old(
                    self,
                ).hook_registry().slot_entries(slot).filter(owned_by_none(unloaded@.to_set())) by {
                lemma_owned_by_none_of_none(old(self).hook_registry().slot_entries(slot));
            }
        }
        while k > 0
            invariant
                0 <= k <= dependents@.len(),
                self.wf(),
                old(self).wf(),
                self.same_setup(old(self)),
                edges == old(self).edges(),
                nodes == old(self).nodes(),
                lists_edges_into(dependents@, edges, id),
                self.enabled() == old(self).enabled().difference(requiring(edges, id)),
                self.loaded() == old(self).loaded().difference(
                    requiring_any(edges, dependents@, k as int),
                ),
                forall|x: u64|
                    #[trigger] unloaded@.contains(x) <==> (old(self).loaded().contains(x)
                        && reaches_any(edges, x, dependents@, k as int)),
                unloaded@.no_duplicates(),
                dependents_first(edges, unloaded@),
                well_founded(edges, nodes),
                active == old(self).loaded(),
                dependents@ == dependents_of(edges, id),
                unloaded@ == taken_down_before(edges, nodes, active, id, k as int),
                forall|x: u64|
                    !unloaded@.contains(x) && #[trigger] mid.records().contains_key(x)
                        ==> self.records()[x] == mid.records()[x],
                mid.registered() == old(self).registered(),
                old(self).hook_registry().wf() ==> self.hook_registry().wf(),
                forall|slot: TypeId, plugin: u64| #[trigger]
                    self.hook_registry().hooks_of(slot, plugin) == if unloaded@.contains(plugin) {
                        Seq::empty()
                    } else {
                        old(self).hook_registry().hooks_of(slot, plugin)
                    },
                forall|slot: TypeId| #[trigger]
                    self.hook_registry().slot_entries(slot) == old(
                        self,
                    ).hook_registry().slot_entries(slot).filter(
                        owned_by_none(unloaded@.to_set()),
                    ),
            decreases k,
        {
            let ghost upper = k as int;
            let ghost before = *self;
            let ghost done = unloaded@;
            k -= 1;
            let dep = dependents[k].0;
            proof {
                let entry = dependents@[k as int];
                assert(dependents@.contains((entry.0, entry.1)));
                lemma_ancestors_decrease(edges, nodes, dep, id);
            }
            let (mut sub, silent) = self.unload(dep, context);
            let ghost part = sub@;
            unloaded.append(&mut sub);
            proof {
                // Whatever requires `id` was disabled with it: nothing is left for the
                // dependents to disable.
                assert(silent@.len() == 0) by {
                    if silent@.len() > 0 {
                        let x = silent@[0];
                        assert(silent@.contains(x));
                        lemma_reach_then_step(edges, x, dep, id);
                        assert(requiring(edges, id).contains(x));
                    }
                }
                assert(unloaded@ == done + part);
                lemma_cascade_step(
                    edges,
                    active,
                    dependents@,
                    k as int,
                    before.loaded(),
                    self.loaded(),
                    done,
                    part,
                );
                assert(self.enabled() =~= before.enabled()) by {
                    assert forall|x: u64|
                        before.enabled().contains(x) implies !requiring(edges, dep).contains(x) by {
                        if reaches_or_eq(edges, x, dep) {
                            lemma_reach_then_step(edges, x, dep, id);
                        }
                    }
                }
                assert forall|slot: TypeId| #[trigger]
                    self.hook_registry().slot_entries(slot) == old(
                        self,
                    ).hook_registry().slot_entries(slot).filter(
                        owned_by_none(unloaded@.to_set()),
                    ) by {
                    lemma_concat_contains(done, part);
                    assert(unloaded@.to_set() =~= done.to_set().union(part.to_set()));
                    lemma_owned_by_none_twice(
                        old(self).hook_registry().slot_entries(slot),
                        done.to_set(),
                        part.to_set(),
                    );
                    assert(before.hook_registry().slot_entries(slot) == old(
                        self,
                    ).hook_registry().slot_entries(slot).filter(owned_by_none(done.to_set())));
                }
                assert forall|x: u64|
                    !unloaded@.contains(x) && #[trigger] mid.records().contains_key(
                        x,
                    ) implies self.records()[x] == mid.records()[x] by {
                    assert(!done.contains(x) && !part.contains(x));
                    assert(before.records()[x] == mid.records()[x]);
                    assert(before.records().contains_key(x));
                }
                assert forall|slot: TypeId, plugin: u64| #[trigger]
                    self.hook_registry().hooks_of(slot, plugin) == if unloaded@.contains(plugin) {
                        Seq::empty()
                    } else {
                        old(self).hook_registry().hooks_of(slot, plugin)
                    } by {
                    assert(unloaded@.contains(plugin) <==> (done.contains(plugin) || part.contains(
                        plugin,
                    )));
                    assert(before.hook_registry().hooks_of(slot, plugin) == if done.contains(
                        plugin,
                    ) {
                        Seq::empty()
                    } else {
                        old(self).hook_registry().hooks_of(slot, plugin)
                    });
                }
            }
        }
        let ghost before = *self;
        let ghost done = unloaded@;
        proof {
            lemma_cascade_end(edges, active, dependents@, id, self.loaded(), done);
            assert(!self.enabled().contains(id)) by {
                assert(requiring(edges, id).contains(id));
            }
        }
        self.run_unload(id, context);
        unloaded.push(id);
        proof {
            assert(unloaded@ == done.push(id));
            lemma_push_contains(done, id);
            assert forall|slot: TypeId| #[trigger]
                self.hook_registry().slot_entries(slot) == old(
                    self,
                ).hook_registry().slot_entries(slot).filter(owned_by_none(unloaded@.to_set())) by {
                lemma_push_contains(done, id);
                assert(unloaded@.to_set() =~= done.to_set().union(Set::empty().insert(id)));
                lemma_owned_by_none_twice(
                    old(self).hook_registry().slot_entries(slot),
                    done.to_set(),
                    Set::empty().insert(id),
                );
                assert(before.hook_registry().slot_entries(slot) == old(
                    self,
                ).hook_registry().slot_entries(slot).filter(owned_by_none(done.to_set())));
            }
            assert forall|x: u64|
                !unloaded@.contains(x) && #[trigger] old(self).records().contains_key(
                    x,
                ) implies self.records()[x] == old(self).records()[x] by {
                assert(!done.contains(x) && x != id);
                assert(mid.records().contains_key(x));
                assert(before.records().contains_key(x));
                assert(before.records()[x] == mid.records()[x]);
                if disabled@.contains(x) {
                    assert(old(self).enabled().contains(x));
                    assert(old(self).loaded().contains(x));
                    if x != id {
                        assert(reaches_any(edges, x, dependents@, 0));
                    }
                }
                assert(mid.records()[x] == old(self).records()[x]);
            }
            assert forall|slot: TypeId, plugin: u64| #[trigger]
                self.hook_registry().hooks_of(slot, plugin) == if unloaded@.contains(plugin) {
                    Seq::empty()
                } else {
                    old(self).hook_registry().hooks_of(slot, plugin)
                } by {
                assert(unloaded@.contains(plugin) <==> (done.contains(plugin) || plugin == id));
                assert(before.hook_registry().hooks_of(slot, plugin) == if done.contains(plugin) {
                    Seq::empty()
                } else {
                    old(self).hook_registry().hooks_of(slot, plugin)
                });
            }
        }
        (unloaded, disabled)
    }
}

impl<Manifest: PluginManifest, H, P, F: Fn() -> P> PluginRegistry<Manifest, H, P, F> {
    /// With the same setup, the same plugins are ready.
    proof fn lemma_ready_same(&self, other: &Self, x: u64)
        requires
            self.same_setup(other),
        ensures
            self.ready(x) == other.ready(x),
            self.registered().contains(x) ==> self.requirements_met(x) == other.requirements_met(x),
    {
        if self.registered().contains(x) {
            assert(self.records().contains_key(x));
            assert(self.records()[x].manifest == other.records()[x].manifest);
            if self.requirements_met(x) {
                assert forall|y: u64| #[trigger]
                    other.edges().contains_key((x, y)) implies other.registered().contains(y)
                    && other.accepts(x, y) by {
                    assert(self.edges().contains_key((x, y)));
                    assert(self.records().contains_key(y));
                    assert(self.accepts(x, y));
                }
            }
            if other.requirements_met(x) {
                assert forall|y: u64| #[trigger]
                    self.edges().contains_key((x, y)) implies self.registered().contains(y)
                    && self.accepts(x, y) by {
                    assert(other.edges().contains_key((x, y)));
                    assert(self.records().contains_key(y));
                    assert(other.accepts(x, y));
                }
            }
        }
    }

    /// What keeps a requirement of `id` from being loaded keeps `id` from being loaded, also
    /// when seen from an earlier state in which fewer plugins were loaded.
    proof fn lemma_explains_lift(&self, earlier: &Self, id: u64, dep: u64, e: LoadPluginError<u64>)
        requires
            self.same_setup(earlier),
            forall|x: u64| earlier.loaded().contains(x) ==> self.loaded().contains(x),
            self.edges().contains_key((id, dep)),
            self.registered().contains(dep),
            self.explains(dep, e),
        ensures
            earlier.explains(id, e),
    {
        let edges = self.edges();
        match e {
            LoadPluginError::NotFound(p) => {},
            LoadPluginError::MissingConstructor(p) => {
                lemma_step_then_reach(edges, id, dep, p);
                assert(self.records().contains_key(p));
            },
            LoadPluginError::DependencyNotFound { plugin, dependency } => {
                lemma_step_then_reach(edges, id, dep, plugin);
            },
            LoadPluginError::DependencyMismatch { plugin, dependency, reason } => {
                lemma_step_then_reach(edges, id, dep, plugin);
                assert(self.records().contains_key(plugin));
                assert(self.records().contains_key(dependency));
            },
        }
    }

    /// A plugin whose loading is kept back by something is not loadable.
    proof fn lemma_explained_not_loadable(&self, id: u64, e: LoadPluginError<u64>)
        requires
            self.explains(id, e),
        ensures
            !self.loadable(id),
    {
        if self.loadable(id) {
            match e {
                LoadPluginError::NotFound(p) => {},
                LoadPluginError::MissingConstructor(p) => {
                    assert(self.ready(p));
                },
                LoadPluginError::DependencyNotFound { plugin, dependency } => {
                    assert(self.ready(plugin));
                    assert(self.edges().contains_key((plugin, dependency)));
                },
                LoadPluginError::DependencyMismatch { plugin, dependency, reason } => {
                    assert(self.ready(plugin));
                    assert(self.edges().contains_key((plugin, dependency)));
                    assert(self.accepts(plugin, dependency));
                },
            }
        }
    }

    /// With the same setup, loading comes to the same.
    pub proof fn lemma_load_outcome_same(&self, other: &Self, loaded: Set<u64>, id: u64)
        requires
            self.same_setup(other),
            well_founded(self.edges(), self.nodes()),
        ensures
            self.load_outcome(loaded, id) == other.load_outcome(loaded, id),
            self.load_with_outcome(loaded, id) == other.load_with_outcome(loaded, id),
        decreases
            descendants(self.edges(), self.nodes(), id).len(),
            requirements_of(self.edges(), id).len() + 1,
    {
        if self.registered().contains(id) && !loaded.contains(id) {
            self.lemma_requirements_outcome_same(other, loaded, id, 0);
            assert(self.records().contains_key(id));
        }
    }

    /// With the same setup, loading requirements comes to the same.
    pub proof fn lemma_requirements_outcome_same(&self, other: &Self, loaded: Set<u64>, id: u64, k: int)
        requires
            self.same_setup(other),
            well_founded(self.edges(), self.nodes()),
            self.registered().contains(id),
            k >= 0,
        ensures
            self.requirements_outcome(loaded, id, k) == other.requirements_outcome(loaded, id, k),
        decreases
            descendants(self.edges(), self.nodes(), id).len(),
            requirements_of(self.edges(), id).len() - k,
    {
        let requirements = requirements_of(self.edges(), id);
        if k < requirements.len() {
            let dependency = requirements[k].0;
            assert(self.records().contains_key(id));
            if self.registered().contains(dependency) {
                assert(self.records().contains_key(dependency));
                assert(self.verdict(id, dependency) == other.verdict(id, dependency));
                if self.verdict(id, dependency) is Ok && self.edges().contains_key(
                    (id, dependency),
                ) {
                    lemma_descendants_decrease(self.edges(), self.nodes(), id, dependency);
                    self.lemma_load_outcome_same(other, loaded, dependency);
                    let (after, failure) = self.load_outcome(loaded, dependency);
                    if failure is None {
                        self.lemma_requirements_outcome_same(other, after, id, k + 1);
                    }
                }
            }
        }
    }

    /// Load what `id` requires, in declared order: each requirement must be registered and
    /// accepted by the manifest of `id`, and is loaded unless it is loaded already. Stops at
    /// the first failure; what was loaded until then stays loaded.
    fn load_dependencies<Context>(&mut self, id: u64, context: &mut Context) -> (result: Result<
        (),
        LoadPluginError<u64>,
    >) where P: Plugin<H, Context>
        requires
            old(self).wf(),
            old(self).registered().contains(id),
            !old(self).loaded().contains(id),
        ensures
            final(self).wf(),
            final(self).same_setup(old(self)),
            final(self).enabled() == old(self).enabled(),
            final(self).hooks_kept(old(self)),
            forall|x: u64| old(self).loaded().contains(x) ==> final(self).loaded().contains(x),
            forall|x: u64|
                #[trigger] final(self).loaded().contains(x) && !old(self).loaded().contains(x)
                    ==> reaches(old(self).edges(), id, x) && old(self).ready(x),
            forall|x: u64| #[trigger] final(self).record_kept(old(self), x),
            result is Ok ==> old(self).requirements_met(id),
            result is Ok ==> forall|x: u64|
                reaches(old(self).edges(), id, x) ==> final(self).loaded().contains(x),
            result is Err ==> old(self).explains(id, result->Err_0),
            result is Err ==> result->Err_0 != LoadPluginError::MissingConstructor(id),
            final(self).loaded() == old(self).requirements_outcome(old(self).loaded(), id, 0).0,
            failure_of(result) == old(self).requirements_outcome(old(self).loaded(), id, 0).1,
        decreases descendants(old(self).edges(), old(self).nodes(), id).len(), 0int,
    {
        let ghost edges = self.edges();
        let ghost nodes = self.nodes();
        let dependencies = self.dependency_graph.requirements(id);
        let mut k: usize = 0;
        proof {
            self.lemma_graph_well_founded();
        }
        while k < dependencies.len()
            invariant
                0 <= k <= dependencies@.len(),
                well_founded(edges, nodes),
                dependencies@ == requirements_of(edges, id),
                old(self).requirements_outcome(old(self).loaded(), id, 0) == old(
                    self,
                ).requirements_outcome(self.loaded(), id, k as int),
                self.wf(),
                old(self).wf(),
                self.same_setup(old(self)),
                edges == old(self).edges(),
                nodes == old(self).nodes(),
                old(self).registered().contains(id),
                !old(self).loaded().contains(id),
                lists_edges_from(dependencies@, edges, id),
                self.enabled() == old(self).enabled(),
                self.hooks_kept(old(self)),
                forall|x: u64| old(self).loaded().contains(x) ==> self.loaded().contains(x),
                forall|x: u64|
                    #[trigger] self.loaded().contains(x) && !old(self).loaded().contains(x)
                        ==> reaches(edges, id, x) && old(self).ready(x),
                forall|x: u64| #[trigger] self.record_kept(old(self), x),
                forall|j: int|
                    0 <= j < k ==> {
                        &&& old(self).registered().contains((#[trigger] dependencies@[j]).0)
                        &&& old(self).accepts(id, dependencies@[j].0)
                        &&& forall|x: u64|
                            reaches_or_eq(edges, dependencies@[j].0, x) ==> self.loaded().contains(
                                x,
                            )
                    },
            decreases dependencies@.len() - k,
        {
            let dep = dependencies[k].0;
            let ghost before = *self;
            proof {
                let entry = dependencies@[k as int];
                assert(dependencies@.contains((entry.0, entry.1)));
                assert(edges.contains_key((id, dep)));
                lemma_descendants_decrease(edges, nodes, id, dep);
                assert(self.records().contains_key(id));
            }
            let verdict = match (self.plugins.get(&id), self.plugins.get(&dep)) {
                (Some(state), Some(dep_state)) => dependency_verdict(
                    id,
                    dep,
                    state.manifest.dependency_matches(&dep_state.manifest),
                ),
                _ => Err(LoadPluginError::DependencyNotFound { plugin: id, dependency: dep }),
            };
            proof {
                if self.records().contains_key(dep) {
                    assert(self.records()[id].manifest == old(self).records()[id].manifest);
                    assert(self.records()[dep].manifest == old(self).records()[dep].manifest);
                }
            }
            match verdict {
                Err(e) => {
                    return Err(e);
                },
                Ok(()) => {},
            }
            proof {
                before.lemma_load_outcome_same(old(self), before.loaded(), dep);
            }
            match self.load(dep, context) {
                Err(e) => {
                    proof {
                        if self.loaded() == old(self).loaded() {
                            assert(before.loaded() =~= old(self).loaded());
                        }
                        before.lemma_explains_lift(old(self), id, dep, e);
                        if e == LoadPluginError::MissingConstructor(id) {
                            lemma_step_then_reach(edges, id, dep, id);
                        }
                        assert forall|x: u64|
                            #[trigger] self.loaded().contains(x) && !old(self).loaded().contains(
                                x,
                            ) implies reaches(edges, id, x) && old(self).ready(x) by {
                            if !before.loaded().contains(x) {
                                lemma_step_then_reach(edges, id, dep, x);
                                before.lemma_ready_same(old(self), x);
                            }
                        }
                        assert forall|x: u64| #[trigger] self.record_kept(old(self), x) by {
                            if old(self).records().contains_key(x) {
                                assert(before.records().contains_key(x));
                                assert(before.record_kept(old(self), x));
                                assert(self.record_kept(&before, x));
                            }
                        }
                    }
                    return Err(e);
                },
                Ok(()) => {},
            }
            proof {
                if self.loaded() == old(self).loaded() {
                    assert(before.loaded() =~= old(self).loaded());
                }
                assert forall|x: u64|
                    #[trigger] self.loaded().contains(x) && !old(self).loaded().contains(
                        x,
                    ) implies reaches(edges, id, x) && old(self).ready(x) by {
                    if !before.loaded().contains(x) {
                        lemma_step_then_reach(edges, id, dep, x);
                        before.lemma_ready_same(old(self), x);
                    }
                }
                assert forall|x: u64| #[trigger] self.record_kept(old(self), x) by {
                    if old(self).records().contains_key(x) {
                        assert(before.records().contains_key(x));
                        assert(before.record_kept(old(self), x));
                        assert(self.record_kept(&before, x));
                    }
                }
                assert(self.records()[id].manifest == old(self).records()[id].manifest);
                assert(before.records().contains_key(dep));
                assert(before.records()[dep].manifest == old(self).records()[dep].manifest);
                assert forall|j: int| 0 <= j < k + 1 implies {
                    &&& old(self).registered().contains((#[trigger] dependencies@[j]).0)
                    &&& old(self).accepts(id, dependencies@[j].0)
                    &&& forall|x: u64|
                        reaches_or_eq(edges, dependencies@[j].0, x) ==> self.loaded().contains(x)
                } by {
                    if j < k {
                        assert forall|x: u64|
                            reaches_or_eq(
                                edges,
                                dependencies@[j].0,
                                x,
                            ) implies self.loaded().contains(x) by {
                            assert(before.loaded().contains(x));
                        }
                    } else {
                        assert forall|x: u64|
                            reaches_or_eq(edges, dep, x) implies self.loaded().contains(x) by {
                            assert(required_by(edges, dep).contains(x));
                        }
                    }
                }
            }
            k += 1;
        }
        proof {
            assert forall|x: u64| reaches(edges, id, x) implies self.loaded().contains(x) by {
                lemma_reaches_through_target(edges, id, x, dependencies@);
            }
            assert forall|y: u64| #[trigger]
                old(self).edges().contains_key((id, y)) implies old(self).registered().contains(y)
                && old(self).accepts(id, y) by {
                assert(dependencies@.contains((y, edges[(id, y)])));
                let j = choose|j: int|
                    0 <= j < dependencies@.len() && dependencies@[j] == (y, edges[(id, y)]);
                assert(old(self).registered().contains(dependencies@[j].0));
            }
        }
        Ok(())
    }

    /// Load the plugin registered with the given plugin id if it is not currently loaded.
    /// Everything that the plugin requires is loaded first, in declared order; then the
    /// plugin is constructed with its registered constructor, and its load callback is
    /// called with the hook registry and `context`.
    ///
    /// A failure leaves loaded what was loaded until then. The hook registry changes only by
    /// what the load callbacks do to it: where the call loads no plugin, it is left as it was.
    pub fn load<Context>(&mut self, id: u64, context: &mut Context) -> (result: Result<
        (),
        LoadPluginError<u64>,
    >) where P: Plugin<H, Context>
        requires
            old(self).wf(),
        ensures
            final(self).wf(),
            final(self).same_setup(old(self)),
            final(self).enabled() == old(self).enabled(),
            final(self).hooks_kept(old(self)),
            final(self).loaded() == old(self).load_outcome(old(self).loaded(), id).0,
            failure_of(result) == old(self).load_outcome(old(self).loaded(), id).1,
            result is Ok <==> old(self).loadable(id),
            result is Ok ==> final(self).loaded() == old(self).loaded().union(
                required_by(old(self).edges(), id),
            ),
            result is Err ==> old(self).explains(id, result->Err_0),
            result is Err ==> !final(self).loaded().contains(id),
            forall|x: u64| old(self).loaded().contains(x) ==> final(self).loaded().contains(x),
            forall|x: u64|
                #[trigger] final(self).loaded().contains(x) && !old(self).loaded().contains(x)
                    ==> reaches_or_eq(old(self).edges(), id, x) && old(self).ready(x),
            forall|x: u64| #[trigger] final(self).record_kept(old(self), x),
        decreases descendants(old(self).edges(), old(self).nodes(), id).len(), 1int,
    {
        let ghost edges = self.edges();
        proof {
            self.lemma_graph_well_founded();
        }
        match self.plugins.get(&id) {
            None => {
                let e = LoadPluginError::NotFound(id);
                proof {
                    self.lemma_explained_not_loadable(id, e);
                }
                return Err(e);
            },
            Some(state) => {
                if state.plugin.is_some() {
                    proof {
                        assert forall|x: u64| reaches_or_eq(edges, id, x) implies self.loaded().contains(
                            x,
                        ) by {
                            if x != id {
                                lemma_closed_reaches(edges, self.loaded(), id, x);
                            }
                        }
                        assert(self.loaded() =~= old(self).loaded().union(required_by(edges, id)));
                    }
                    return Ok(());
                }
            },
        }
        match self.load_dependencies(id, context) {
            Err(e) => {
                proof {
                    old(self).lemma_explained_not_loadable(id, e);
                    assert(!self.loaded().contains(id)) by {
                        if self.loaded().contains(id) {
                            assert(reaches(edges, id, id));
                        }
                    }
                }
                return Err(e);
            },
            Ok(()) => {},
        }
        let ghost before = *self;
        proof {
            assert(!self.loaded().contains(id)) by {
                if self.loaded().contains(id) {
                    assert(reaches(edges, id, id));
                }
            }
            assert(self.records().contains_key(id));
            assert(self.records()[id].ctor == old(self).records()[id].ctor);
            assert forall|y: u64| #[trigger]
                self.edges().contains_key((id, y)) implies self.loaded().contains(y) by {
                lemma_edge_reaches(edges, id, y);
            }
        }
        let result = match self.construct(id) {
            None => Err(LoadPluginError::MissingConstructor(id)),
            Some(instance) => {
                self.run_load(id, instance, context);
                Ok(())
            },
        };
        proof {
            assert forall|x: u64| #[trigger] self.record_kept(old(self), x) by {
                if old(self).records().contains_key(x) {
                    assert(before.records().contains_key(x));
                    assert(before.record_kept(old(self), x));
                    assert(self.record_kept(&before, x));
                }
            }
            if result is Ok {
                assert(self.loaded() =~= old(self).loaded().union(required_by(edges, id))) by {
                    assert forall|x: u64|
                        self.loaded().contains(x) <==> (old(self).loaded().contains(x)
                            || reaches_or_eq(edges, id, x)) by {
                        if before.loaded().contains(x) && !old(self).loaded().contains(x) {
                            assert(reaches(edges, id, x));
                        }
                    }
                }
                assert(old(self).ready(id));
                assert forall|x: u64|
                    reaches_or_eq(edges, id, x) && !old(self).loaded().contains(
                        x,
                    ) implies #[trigger] old(self).ready(x) by {
                    if x != id {
                        assert(before.loaded().contains(x));
                    }
                }
            } else {
                old(self).lemma_explained_not_loadable(id, result->Err_0);
            }
        }
        result
    }
}

impl<Manifest: PluginManifest, H, P, F: Fn() -> P> PluginRegistry<Manifest, H, P, F> {
    /// A plugin whose loading with an instance at hand is kept back by something other than
    /// its own missing constructor is not loadable that way.
    proof fn lemma_explained_not_loadable_with(&self, id: u64, e: LoadPluginError<u64>)
        requires
            self.explains(id, e),
            e != LoadPluginError::MissingConstructor(id),
        ensures
            !self.loadable_with(id),
    {
        if self.loadable_with(id) {
            match e {
                LoadPluginError::NotFound(p) => {},
                LoadPluginError::MissingConstructor(p) => {
                    assert(self.ready(p));
                },
                LoadPluginError::DependencyNotFound { plugin, dependency } => {
                    if plugin != id {
                        assert(self.ready(plugin));
                    }
                    assert(self.edges().contains_key((plugin, dependency)));
                },
                LoadPluginError::DependencyMismatch { plugin, dependency, reason } => {
                    if plugin != id {
                        assert(self.ready(plugin));
                    }
                    assert(self.edges().contains_key((plugin, dependency)));
                    assert(self.accepts(plugin, dependency));
                },
            }
        }
    }

    /// Load the plugin registered with the given plugin id if it is not currently loaded,
    /// as [`Self::load`] does, but with the instance `plugin` in place of one made by the
    /// registered constructor. If the plugin is loaded already, `plugin` is dropped.
    pub fn load_with<Context>(&mut self, id: u64, plugin: P, context: &mut Context) -> (result:
        Result<(), LoadPluginError<u64>>) where P: Plugin<H, Context>
        requires
            old(self).wf(),
        ensures
            final(self).wf(),
            final(self).same_setup(old(self)),
            final(self).enabled() == old(self).enabled(),
            final(self).hooks_kept(old(self)),
            final(self).loaded() == old(self).load_with_outcome(old(self).loaded(), id).0,
            failure_of(result) == old(self).load_with_outcome(old(self).loaded(), id).1,
            result is Ok <==> old(self).loadable_with(id),
            result is Ok ==> final(self).loaded() == old(self).loaded().union(
                required_by(old(self).edges(), id),
            ),
            result is Err ==> old(self).explains(id, result->Err_0),
            result is Err ==> !final(self).loaded().contains(id),
            forall|x: u64| old(self).loaded().contains(x) ==> final(self).loaded().contains(x),
            forall|x: u64|
                #[trigger] final(self).loaded().contains(x) && !old(self).loaded().contains(x)
                    ==> reaches_or_eq(old(self).edges(), id, x),
            forall|x: u64| #[trigger] final(self).record_kept(old(self), x),
    {
        let ghost edges = self.edges();
        proof {
            self.lemma_graph_well_founded();
        }
        match self.plugins.get(&id) {
            None => {
                return Err(LoadPluginError::NotFound(id));
            },
            Some(state) => {
                if state.plugin.is_some() {
                    proof {
                        assert forall|x: u64| reaches_or_eq(edges, id, x) implies self.loaded().contains(
                            x,
                        ) by {
                            if x != id {
                                lemma_closed_reaches(edges, self.loaded(), id, x);
                            }
                        }
                        assert(self.loaded() =~= old(self).loaded().union(required_by(edges, id)));
                    }
                    return Ok(());
                }
            },
        }
        match self.load_dependencies(id, context) {
            Err(e) => {
                proof {
                    old(self).lemma_explained_not_loadable_with(id, e);
                    assert(!self.loaded().contains(id)) by {
                        if self.loaded().contains(id) {
                            assert(reaches(edges, id, id));
                        }
                    }
                }
                return Err(e);
            },
            Ok(()) => {},
        }
        let ghost before = *self;
        proof {
            assert(!self.loaded().contains(id)) by {
                if self.loaded().contains(id) {
                    assert(reaches(edges, id, id));
                }
            }
            assert(self.records().contains_key(id));
            assert forall|y: u64| #[trigger]
                self.edges().contains_key((id, y)) implies self.loaded().contains(y) by {
                lemma_edge_reaches(edges, id, y);
            }
        }
        self.run_load(id, plugin, context);
        proof {
            assert forall|x: u64| #[trigger] self.record_kept(old(self), x) by {
                if old(self).records().contains_key(x) {
                    assert(before.records().contains_key(x));
                    assert(before.record_kept(old(self), x));
                    assert(self.record_kept(&before, x));
                }
            }
            assert(self.loaded() =~= old(self).loaded().union(required_by(edges, id))) by {
                assert forall|x: u64|
                    self.loaded().contains(x) <==> (old(self).loaded().contains(x) || reaches_or_eq(
                        edges,
                        id,
                        x,
                    )) by {
                    if before.loaded().contains(x) && !old(self).loaded().contains(x) {
                        assert(reaches(edges, id, x));
                    }
                }
            }
            assert forall|x: u64|
                reaches(edges, id, x) && !old(self).loaded().contains(x) implies #[trigger] old(
                    self,
                ).ready(x) by {
                assert(before.loaded().contains(x));
            }
        }
        Ok(())
    }

    /// Enable the plugin with the given plugin id if it is not currently enabled. The plugin
    /// is loaded first if it is not loaded; then everything that it requires is enabled, in
    /// declared order, before the plugin's own enable callback is called.
    ///
    /// Only the loading can fail. Then nothing has been enabled, and what was loaded until
    /// then stays loaded.
    pub fn enable<Context>(&mut self, id: u64, context: &mut Context) -> (result: Result<
        (),
        LoadPluginError<u64>,
    >) where P: Plugin<H, Context>
        requires
            old(self).wf(),
        ensures
            final(self).wf(),
            final(self).same_setup(old(self)),
            final(self).hooks_kept(old(self)),
            final(self).loaded() == old(self).load_outcome(old(self).loaded(), id).0,
            failure_of(result) == old(self).load_outcome(old(self).loaded(), id).1,
            result is Ok <==> old(self).loadable(id),
            result is Ok ==> final(self).loaded() == old(self).loaded().union(
                required_by(old(self).edges(), id),
            ),
            result is Ok ==> final(self).enabled() == old(self).enabled().union(
                required_by(old(self).edges(), id),
            ),
            result is Err ==> old(self).explains(id, result->Err_0),
            result is Err ==> final(self).enabled() == old(self).enabled(),
            result is Err ==> !final(self).loaded().contains(id),
            forall|x: u64| old(self).loaded().contains(x) ==> final(self).loaded().contains(x),
            forall|x: u64|
                #[trigger] final(self).loaded().contains(x) && !old(self).loaded().contains(x)
                    ==> reaches_or_eq(old(self).edges(), id, x),
            forall|x: u64| #[trigger] final(self).record_kept(old(self), x),
        decreases descendants(old(self).edges(), old(self).nodes(), id).len(),
    {
        let ghost edges = self.edges();
        let ghost nodes = self.nodes();
        proof {
            self.lemma_graph_well_founded();
        }
        match self.plugins.get(&id) {
            None => {
                let e = LoadPluginError::NotFound(id);
                proof {
                    self.lemma_explained_not_loadable(id, e);
                }
                return Err(e);
            },
            Some(state) => {
                if state.enabled {
                    proof {
                        assert(self.enabled().contains(id));
                        assert forall|x: u64| reaches_or_eq(edges, id, x) implies self.enabled().contains(
                            x,
                        ) && self.loaded().contains(x) by {
                            if x != id {
                                lemma_closed_reaches(edges, self.enabled(), id, x);
                            }
                        }
                        assert(self.loaded() =~= old(self).loaded().union(required_by(edges, id)));
                        assert(self.enabled() =~= old(self).enabled().union(
                            required_by(edges, id),
                        ));
                    }
                    return Ok(());
                }
            },
        }
        match self.load(id, context) {
            Err(e) => {
                return Err(e);
            },
            Ok(()) => {},
        }
        let ghost loaded_all = self.loaded();
        let ghost mid = *self;
        let dependencies = self.dependency_graph.requirements(id);
        let mut k: usize = 0;
        proof {
            assert(required_by_any(edges, dependencies@, 0) =~= Set::empty());
            assert(self.enabled() =~= old(self).enabled().union(
                required_by_any(edges, dependencies@, 0),
            ));
        }
        while k < dependencies.len()
            invariant
                0 <= k <= dependencies@.len(),
                self.wf(),
                old(self).wf(),
                self.same_setup(old(self)),
                edges == old(self).edges(),
                nodes == old(self).nodes(),
                lists_edges_from(dependencies@, edges, id),
                loaded_all == old(self).loaded().union(required_by(edges, id)),
                self.loaded() == loaded_all,
                mid.loaded() == loaded_all,
                mid.hooks_kept(old(self)),
                self.hook_registry() == mid.hook_registry(),
                self.enabled() == old(self).enabled().union(
                    required_by_any(edges, dependencies@, k as int),
                ),
                !old(self).enabled().contains(id),
                old(self).registered().contains(id),
                forall|x: u64| #[trigger] self.record_kept(old(self), x),
            decreases dependencies@.len() - k,
        {
            let dep = dependencies[k].0;
            let ghost before = *self;
            proof {
                let entry = dependencies@[k as int];
                assert(dependencies@.contains((entry.0, entry.1)));
                assert(edges.contains_key((id, dep)));
                lemma_descendants_decrease(edges, nodes, id, dep);
                lemma_edge_reaches(edges, id, dep);
                assert(required_by(edges, id).contains(dep));
                assert(self.loaded().contains(dep));
                assert forall|x: u64| reaches_or_eq(edges, dep, x) implies self.loaded().contains(
                    x,
                ) by {
                    if x != dep {
                        lemma_closed_reaches(edges, self.loaded(), dep, x);
                    }
                }
                assert(self.loadable(dep));
            }
            match self.enable(dep, context) {
                Err(e) => {
                    proof {
                        assert(false);
                    }
                    return Err(e);
                },
                Ok(()) => {},
            }
            proof {
                assert(self.loaded() =~= loaded_all);
                assert(self.enabled() =~= old(self).enabled().union(
                    required_by_any(edges, dependencies@, k + 1),
                )) by {
                    assert forall|x: u64|
                        #[trigger] required_by_any(edges, dependencies@, k + 1).contains(x) <==> (
                        required_by_any(edges, dependencies@, k as int).contains(x) || required_by(
                            edges,
                            dep,
                        ).contains(x)) by {
                        lemma_reached_from_any_step(edges, dependencies@, k as int, x);
                    }
                }
                assert forall|x: u64| #[trigger] self.record_kept(old(self), x) by {
                    if old(self).records().contains_key(x) {
                        assert(before.records().contains_key(x));
                        assert(before.record_kept(old(self), x));
                        assert(self.record_kept(&before, x));
                    }
                }
            }
            k += 1;
        }
        let ghost before = *self;
        proof {
            assert(self.loaded().contains(id)) by {
                assert(required_by(edges, id).contains(id));
            }
            assert forall|x: u64|
                reaches(edges, id, x) <==> #[trigger] required_by_any(
                    edges,
                    dependencies@,
                    dependencies@.len() as int,
                ).contains(x) by {
                lemma_reaches_through_target(edges, id, x, dependencies@);
            }
            assert(!self.enabled().contains(id)) by {
                if self.enabled().contains(id) {
                    assert(reaches(edges, id, id));
                }
            }
            assert forall|y: u64| #[trigger]
                self.edges().contains_key((id, y)) implies self.enabled().contains(y) by {
                lemma_edge_reaches(edges, id, y);
                assert(required_by_any(edges, dependencies@, dependencies@.len() as int).contains(
                    y,
                ));
            }
        }
        self.run_enable(id, context);
        proof {
            assert(self.enabled() =~= old(self).enabled().union(required_by(edges, id)));
            assert forall|x: u64| #[trigger] self.record_kept(old(self), x) by {
                if old(self).records().contains_key(x) {
                    assert(before.records().contains_key(x));
                    assert(before.record_kept(old(self), x));
                    assert(self.record_kept(&before, x));
                }
            }
        }
        Ok(())
    }

    /// Remove the plugin with the given plugin id and return whether it was registered. The
    /// plugin is unloaded first, as [`Self::unload`] does it, with everything that requires
    /// it; the ids of the plugins unloaded and disabled on the way are returned. The hooks
    /// filed under the plugin's id are removed, whether the plugin was loaded or not. The
    /// dependency graph forgets the plugin unless another plugin still names it as a
    /// requirement.
    pub fn remove<Context>(&mut self, id: u64, context: &mut Context) -> (out: (
        bool,
        Vec<u64>,
        Vec<u64>,
    )) where P: Plugin<H, Context>
        requires
            old(self).wf(),
        ensures
            final(self).wf(),
            out.0 == old(self).registered().contains(id),
            final(self).registered() == old(self).registered().remove(id),
            final(self).loaded() == old(self).loaded().difference(requiring(old(self).edges(), id)),
            final(self).enabled() == old(self).enabled().difference(
                requiring(old(self).edges(), id),
            ),
            forall|x: u64|
                #[trigger] out.1@.contains(x) <==> (old(self).loaded().contains(x)
                    && reaches_or_eq(old(self).edges(), x, id)),
            forall|x: u64|
                #[trigger] out.2@.contains(x) <==> (old(self).enabled().contains(x)
                    && reaches_or_eq(old(self).edges(), x, id)),
            out.1@ == taken_down(old(self).edges(), old(self).nodes(), old(self).loaded(), id),
            out.2@ == taken_down(old(self).edges(), old(self).nodes(), old(self).enabled(), id),
            out.1@.no_duplicates(),
            out.2@.no_duplicates(),
            dependents_first(old(self).edges(), out.1@),
            dependents_first(old(self).edges(), out.2@),
            forall|x: u64|
                x != id && #[trigger] old(self).records().contains_key(x) ==> {
                    &&& final(self).records()[x].manifest == old(self).records()[x].manifest
                    &&& final(self).records()[x].ctor == old(self).records()[x].ctor
                    &&& !out.1@.contains(x) ==> final(self).records()[x] == old(self).records()[x]
                },
            final(self).nodes() == if out.0 && !has_dependents(old(self).edges(), id) {
                old(self).nodes().remove(id)
            } else {
                old(self).nodes()
            },
            final(self).edges() == if out.0 && !has_dependents(old(self).edges(), id) {
                edges_without_node(old(self).edges(), id)
            } else {
                old(self).edges()
            },
            old(self).hook_registry().wf() ==> final(self).hook_registry().wf(),
            forall|slot: TypeId, plugin: u64| #[trigger]
                final(self).hook_registry().hooks_of(slot, plugin) == if (out.0 && plugin == id)
                    || out.1@.contains(plugin) {
                    Seq::empty()
                } else {
                    old(self).hook_registry().hooks_of(slot, plugin)
                },
            forall|slot: TypeId| #[trigger]
                final(self).hook_registry().slot_entries(slot) == old(
                    self,
                ).hook_registry().slot_entries(slot).filter(
                    owned_by_none(
                        if out.0 {
                            out.1@.to_set().insert(id)
                        } else {
                            out.1@.to_set()
                        },
                    ),
                ),
    {
        let ghost edges = self.edges();
        proof {
            self.lemma_graph_well_founded();
        }
        if !self.plugins.contains_key(&id) {
            proof {
                assert(self.registered() =~= old(self).registered().remove(id));
                assert forall|x: u64| old(self).loaded().contains(x) implies !reaches_or_eq(
                    edges,
                    x,
                    id,
                ) by {
                    if reaches(edges, x, id) {
                        lemma_closed_reaches(edges, self.loaded(), x, id);
                    }
                }
                assert(self.loaded() =~= old(self).loaded().difference(requiring(edges, id)));
                assert(self.enabled() =~= old(self).enabled().difference(requiring(edges, id)));
                assert(Seq::<u64>::empty().to_set() =~= Set::empty());
                assert forall|slot: TypeId| #[trigger]
                    self.hook_registry().slot_entries(slot) == old(
                        self,
                    ).hook_registry().slot_entries(slot).filter(
                        owned_by_none(Seq::<u64>::empty().to_set()),
                    ) by {
                    lemma_owned_by_none_of_none(old(self).hook_registry().slot_entries(slot));
                }
            }
            return (false, Vec::new(), Vec::new());
        }
        let (unloaded, disabled) = self.unload(id, context);
        let ghost unloaded_state = *self;
        self.hooks.remove_plugin_hooks(id);
        let ghost before = *self;
        self.plugins.remove(&id);
        self.dependency_graph.prune(id);
        proof {
            assert(self.registered() =~= old(self).registered().remove(id));
            assert(!before.loaded().contains(id));
            assert(!before.enabled().contains(id));
            assert(self.loaded() =~= before.loaded());
            assert(self.enabled() =~= before.enabled());
            self.lemma_states_follow_graph(&before, id);
            assert forall|x: u64|
                x != id && #[trigger] old(self).records().contains_key(x) implies {
                    &&& self.records()[x].manifest == old(self).records()[x].manifest
                    &&& self.records()[x].ctor == old(self).records()[x].ctor
                    &&& !unloaded@.contains(x) ==> self.records()[x] == old(self).records()[x]
                } by {
                assert(before.records().contains_key(x));
            }
            assert(self.hook_registry() == before.hook_registry());
            assert forall|slot: TypeId| #[trigger]
                self.hook_registry().slot_entries(slot) == old(
                    self,
                ).hook_registry().slot_entries(slot).filter(
                    owned_by_none(unloaded@.to_set().insert(id)),
                ) by {
                assert(unloaded@.to_set().insert(id) =~= unloaded@.to_set().union(
                    Set::empty().insert(id),
                ));
                lemma_owned_by_none_twice(
                    old(self).hook_registry().slot_entries(slot),
                    unloaded@.to_set(),
                    Set::empty().insert(id),
                );
                assert(unloaded_state.hook_registry().slot_entries(slot) == old(
                    self,
                ).hook_registry().slot_entries(slot).filter(owned_by_none(unloaded@.to_set())));
            }
            assert forall|slot: TypeId, plugin: u64| #[trigger]
                self.hook_registry().hooks_of(slot, plugin) == if plugin == id
                    || unloaded@.contains(plugin) {
                    Seq::empty()
                } else {
                    old(self).hook_registry().hooks_of(slot, plugin)
                } by {
                assert(unloaded_state.hook_registry().hooks_of(slot, plugin)
                    == if unloaded@.contains(plugin) {
                    Seq::empty()
                } else {
                    old(self).hook_registry().hooks_of(slot, plugin)
                });
                if plugin != id {
                    assert(before.hook_registry().hooks_of(slot, plugin)
                        == unloaded_state.hook_registry().hooks_of(slot, plugin));
                }
            }
        }
        (true, unloaded, disabled)
    }
}

/// What kept an operation from succeeding, if anything did.
pub open spec fn failure_of<E>(result: Result<(), E>) -> Option<E> {
    match result {
        Ok(_) => None,
        Err(e) => Some(e),
    }
}

/// What the answer of a manifest to a declared dependency means for loading: an acceptance
/// lets loading go on, a rejection becomes a `DependencyMismatch` that carries the reason.
pub fn dependency_verdict(plugin: u64, dependency: u64, answer: Result<(), String>) -> (verdict:
    Result<(), LoadPluginError<u64>>)
    ensures
        answer is Ok ==> verdict is Ok,
        answer is Err ==> verdict == Err::<(), LoadPluginError<u64>>(
            LoadPluginError::DependencyMismatch { plugin, dependency, reason: answer->Err_0 },
        ),
{
    match answer {
        Ok(()) => Ok(()),
        Err(reason) => Err(LoadPluginError::DependencyMismatch { plugin, dependency, reason }),
    }
}

} // verus!
