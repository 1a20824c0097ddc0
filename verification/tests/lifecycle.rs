use biner::LoadPluginError;
use biner::Plugin;
use biner::PluginManifest;
use biner::PluginRegistry;
use biner::RegisterPluginError;
use biner::SimplePluginManifest;

const CORE: u64 = 1;
const UI: u64 = 2;
const NET: u64 = 3;

/// A plugin that writes down which of its callbacks ran, in order.
struct Recorder {
    id: u64,
}

impl Plugin<String, Vec<String>> for Recorder {
    fn load(&mut self, _hooks: &mut biner::HookRegistry<String>, context: &mut Vec<String>) {
        context.push(format!("load {}", self.id));
    }

    fn unload(&mut self, context: &mut Vec<String>) {
        context.push(format!("unload {}", self.id));
    }

    fn enable(&mut self, context: &mut Vec<String>) {
        context.push(format!("enable {}", self.id));
    }

    fn disable(&mut self, context: &mut Vec<String>) {
        context.push(format!("disable {}", self.id));
    }
}

fn make_core() -> Recorder {
    Recorder { id: CORE }
}

fn make_ui() -> Recorder {
    Recorder { id: UI }
}

fn make_net() -> Recorder {
    Recorder { id: NET }
}

type Registry = PluginRegistry<SimplePluginManifest, String, Recorder, fn() -> Recorder>;

fn core_ui_net() -> Registry {
    let mut plugins = Registry::new();
    assert_eq!(plugins.register(SimplePluginManifest::new(CORE, "core"), Some(make_core)), Ok(CORE));
    assert_eq!(
        plugins.register(
            SimplePluginManifest::with_dependencies(UI, "ui", vec![CORE]),
            Some(make_ui)
        ),
        Ok(UI)
    );
    assert_eq!(
        plugins.register(
            SimplePluginManifest::with_dependencies(NET, "net", vec![CORE]),
            Some(make_net)
        ),
        Ok(NET)
    );
    plugins
}

#[test]
fn load_ui_then_unload_core() {
    let mut plugins = core_ui_net();
    let mut log = Vec::new();
    assert_eq!(plugins.load(UI, &mut log), Ok(()));
    let mut loaded = plugins.loaded_plugin_ids();
    loaded.sort();
    assert_eq!(loaded, vec![CORE, UI]);
    assert_eq!(log, vec!["load 1".to_string(), "load 2".to_string()]);

    let (unloaded, disabled) = plugins.unload(CORE, &mut log);
    assert_eq!(unloaded, vec![UI, CORE]);
    assert_eq!(disabled, Vec::<u64>::new());
    assert!(!plugins.is_loaded(NET));
    assert!(!plugins.is_loaded(UI));
    assert!(!plugins.is_loaded(CORE));
    assert_eq!(plugins.loaded_plugin_count(), 0);
    assert_eq!(
        log,
        vec![
            "load 1".to_string(),
            "load 2".to_string(),
            "unload 2".to_string(),
            "unload 1".to_string()
        ]
    );
}

#[test]
fn manifest_reports_what_it_was_given() {
    let manifest = SimplePluginManifest::with_dependencies(UI, "ui", vec![CORE, NET]);
    assert_eq!(manifest.id(), UI);
    assert_eq!(manifest.dependencies(), &[CORE, NET]);
    assert_eq!(manifest.description(), "ui");
    assert_eq!(manifest.dependency_matches(&SimplePluginManifest::new(CORE, "core")), Ok(()));
}

#[test]
fn duplicate_registration_is_rejected() {
    let mut plugins = core_ui_net();
    assert_eq!(
        plugins.register(SimplePluginManifest::new(UI, "again"), None),
        Err(RegisterPluginError::Duplicate(UI))
    );
    assert_eq!(plugins.plugin_count(), 3);
    assert_eq!(plugins.get_manifest(UI).unwrap().description(), "ui");
}

#[test]
fn unknown_plugin_is_not_found() {
    let mut plugins = core_ui_net();
    let mut log = Vec::new();
    assert_eq!(plugins.load(9, &mut log), Err(LoadPluginError::NotFound(9)));
    assert_eq!(plugins.enable(9, &mut log), Err(LoadPluginError::NotFound(9)));
    assert!(log.is_empty());
}

fn lines(log: &[String]) -> Vec<&str> {
    log.iter().map(|s| s.as_str()).collect()
}

fn sorted(mut ids: Vec<u64>) -> Vec<u64> {
    ids.sort();
    ids
}

fn recorder_1() -> Recorder {
    Recorder { id: 1 }
}

fn recorder_2() -> Recorder {
    Recorder { id: 2 }
}

fn recorder_3() -> Recorder {
    Recorder { id: 3 }
}

fn recorder_4() -> Recorder {
    Recorder { id: 4 }
}

fn constructor(id: u64) -> fn() -> Recorder {
    match id {
        1 => recorder_1,
        2 => recorder_2,
        3 => recorder_3,
        _ => recorder_4,
    }
}

/// Registers `id` with the dependencies `deps` and a constructor.
fn add(plugins: &mut Registry, id: u64, deps: Vec<u64>) -> Result<u64, RegisterPluginError<u64>> {
    plugins.register(SimplePluginManifest::with_dependencies(id, "", deps), Some(constructor(id)))
}

#[test]
fn static_plugin_slot() {
    fn init_test_plugin(registry: &mut Registry) {
        registry
            .register(SimplePluginManifest::new(1, "test description"), Some(recorder_1))
            .unwrap();
    }
    let initializers: [fn(&mut Registry); 1] = [init_test_plugin];
    let mut plugins = Registry::with_capacity(initializers.len());
    for init in initializers.iter() {
        init(&mut plugins);
    }

    assert_eq!(plugins.plugin_count(), 1);
    assert!(plugins.is_registered(1));
    assert_eq!(
        plugins.get_manifest(1).unwrap(),
        &SimplePluginManifest::new(1, "test description")
    );
    assert_eq!(plugins.plugin_ids(), vec![1]);

    assert!(!plugins.is_loaded(1));
    assert!(!plugins.is_enabled(1));
    assert!(plugins.get_loaded_plugin(1).is_none());
    assert!(plugins.get_enabled_plugin(1).is_none());

    let mut context = Vec::new();

    plugins.load(1, &mut context).unwrap();
    plugins.enable(1, &mut context).unwrap();

    assert_eq!(plugins.disable(1, &mut Vec::new()).into_iter().count(), 1);
    let (unloaded, disabled) = plugins.unload(1, &mut context);
    assert_eq!(unloaded.into_iter().count(), 1);
    assert_eq!(disabled.into_iter().count(), 0);

    plugins.enable(1, &mut context).unwrap();
    let (unloaded, disabled) = plugins.unload(1, &mut context);
    assert_eq!(unloaded.into_iter().count(), 1);
    assert_eq!(disabled.into_iter().count(), 1);

    assert!(plugins.remove(1, &mut context).0);
}

#[test]
fn acyclic_registrations_all_succeed() {
    let mut plugins = Registry::new();
    assert_eq!(add(&mut plugins, 4, vec![3, 2]), Ok(4));
    assert_eq!(add(&mut plugins, 3, vec![1]), Ok(3));
    assert_eq!(add(&mut plugins, 2, vec![1, 3]), Ok(2));
    assert_eq!(add(&mut plugins, 1, vec![]), Ok(1));
    assert_eq!(plugins.plugin_count(), 4);
    assert_eq!(sorted(plugins.plugin_ids()), vec![1, 2, 3, 4]);
    assert_eq!(plugins.loaded_plugin_count(), 0);
    assert_eq!(plugins.enabled_plugin_count(), 0);
}

#[test]
fn closing_a_cycle_is_rejected_and_changes_nothing() {
    let mut plugins = Registry::new();
    let mut log = Vec::new();
    assert_eq!(add(&mut plugins, 1, vec![2]), Ok(1));
    assert_eq!(add(&mut plugins, 2, vec![3]), Ok(2));
    assert_eq!(add(&mut plugins, 3, vec![4, 1]), Err(RegisterPluginError::CyclicDependency(3)));
    assert_eq!(plugins.plugin_count(), 2);
    assert!(plugins.is_registered(1));
    assert!(plugins.is_registered(2));
    assert!(!plugins.is_registered(3));
    assert!(!plugins.is_registered(4));
    assert!(plugins.get_manifest(3).is_none());
    // The requirements declared before are all still there: 1 needs 2, and 2 needs 3.
    assert_eq!(
        plugins.load(1, &mut log),
        Err(LoadPluginError::DependencyNotFound { plugin: 2, dependency: 3 })
    );
    assert_eq!(add(&mut plugins, 3, vec![]), Ok(3));
    assert_eq!(plugins.load(1, &mut log), Ok(()));
    assert_eq!(lines(&log), vec!["load 3", "load 2", "load 1"]);
}

#[test]
fn a_plugin_that_requires_itself_is_rejected() {
    let mut plugins = Registry::new();
    assert_eq!(add(&mut plugins, 1, vec![1]), Err(RegisterPluginError::CyclicDependency(1)));
    assert_eq!(plugins.plugin_count(), 0);
    assert!(!plugins.is_registered(1));
    assert_eq!(add(&mut plugins, 1, vec![]), Ok(1));
}

#[test]
fn requirements_are_loaded_first_in_declared_order() {
    let mut plugins = Registry::new();
    let mut log = Vec::new();
    assert_eq!(add(&mut plugins, 1, vec![3, 2]), Ok(1));
    assert_eq!(add(&mut plugins, 2, vec![]), Ok(2));
    assert_eq!(add(&mut plugins, 3, vec![]), Ok(3));
    assert_eq!(plugins.load(1, &mut log), Ok(()));
    assert_eq!(lines(&log), vec!["load 3", "load 2", "load 1"]);
    assert_eq!(sorted(plugins.loaded_plugin_ids()), vec![1, 2, 3]);
    assert_eq!(plugins.loaded_plugin_count(), 3);
    assert_eq!(plugins.load(1, &mut log), Ok(()));
    assert_eq!(log.len(), 3);
}

#[test]
fn shared_requirement_is_loaded_once() {
    let mut plugins = Registry::new();
    let mut log = Vec::new();
    assert_eq!(add(&mut plugins, 1, vec![2, 3]), Ok(1));
    assert_eq!(add(&mut plugins, 2, vec![4]), Ok(2));
    assert_eq!(add(&mut plugins, 3, vec![4]), Ok(3));
    assert_eq!(add(&mut plugins, 4, vec![]), Ok(4));
    assert_eq!(plugins.load(1, &mut log), Ok(()));
    assert_eq!(lines(&log), vec!["load 4", "load 2", "load 3", "load 1"]);
}

#[test]
fn unload_takes_dependents_first() {
    let mut plugins = Registry::new();
    let mut log = Vec::new();
    assert_eq!(add(&mut plugins, 1, vec![]), Ok(1));
    assert_eq!(add(&mut plugins, 2, vec![1]), Ok(2));
    assert_eq!(add(&mut plugins, 3, vec![2]), Ok(3));
    assert_eq!(plugins.load(3, &mut log), Ok(()));
    log.clear();
    let (unloaded, disabled) = plugins.unload(1, &mut log);
    assert_eq!(unloaded, vec![3, 2, 1]);
    assert!(disabled.is_empty());
    assert_eq!(lines(&log), vec!["unload 3", "unload 2", "unload 1"]);
    assert_eq!(plugins.loaded_plugin_count(), 0);
    let (unloaded, disabled) = plugins.unload(1, &mut log);
    assert!(unloaded.is_empty());
    assert!(disabled.is_empty());
    assert_eq!(log.len(), 3);
}

#[test]
fn unload_of_a_leaf_leaves_its_requirements_loaded() {
    let mut plugins = core_ui_net();
    let mut log = Vec::new();
    assert_eq!(plugins.load(UI, &mut log), Ok(()));
    assert_eq!(plugins.load(NET, &mut log), Ok(()));
    let (unloaded, disabled) = plugins.unload(UI, &mut log);
    assert_eq!(unloaded, vec![UI]);
    assert!(disabled.is_empty());
    assert!(plugins.is_loaded(CORE));
    assert!(plugins.is_loaded(NET));
    assert!(!plugins.is_loaded(UI));
}

#[test]
fn enable_loads_and_enables_requirements_first() {
    let mut plugins = Registry::new();
    let mut log = Vec::new();
    assert_eq!(add(&mut plugins, 1, vec![2, 3]), Ok(1));
    assert_eq!(add(&mut plugins, 2, vec![]), Ok(2));
    assert_eq!(add(&mut plugins, 3, vec![2]), Ok(3));
    assert_eq!(plugins.enable(1, &mut log), Ok(()));
    assert_eq!(
        lines(&log),
        vec!["load 2", "load 3", "load 1", "enable 2", "enable 3", "enable 1"]
    );
    assert_eq!(sorted(plugins.enabled_plugin_ids()), vec![1, 2, 3]);
    assert_eq!(plugins.enabled_plugin_count(), 3);
    assert!(plugins.is_enabled(2));
    assert_eq!(plugins.enable(1, &mut log), Ok(()));
    assert_eq!(log.len(), 6);
    assert_eq!(plugins.get_enabled_plugin(3).unwrap().id, 3);
}

#[test]
fn disable_takes_dependents_first() {
    let mut plugins = Registry::new();
    let mut log = Vec::new();
    assert_eq!(add(&mut plugins, 1, vec![]), Ok(1));
    assert_eq!(add(&mut plugins, 2, vec![1]), Ok(2));
    assert_eq!(add(&mut plugins, 3, vec![1]), Ok(3));
    assert_eq!(add(&mut plugins, 4, vec![3]), Ok(4));
    assert_eq!(plugins.enable(2, &mut log), Ok(()));
    assert_eq!(plugins.enable(4, &mut log), Ok(()));
    log.clear();
    assert_eq!(plugins.disable(1, &mut log), vec![4, 3, 2, 1]);
    assert_eq!(lines(&log), vec!["disable 4", "disable 3", "disable 2", "disable 1"]);
    assert_eq!(plugins.enabled_plugin_count(), 0);
    assert_eq!(plugins.loaded_plugin_count(), 4);
    assert_eq!(plugins.disable(1, &mut log), Vec::<u64>::new());
    assert_eq!(log.len(), 4);
}

#[test]
fn disable_spares_what_does_not_depend_on_the_plugin() {
    let mut plugins = core_ui_net();
    let mut log = Vec::new();
    assert_eq!(plugins.enable(UI, &mut log), Ok(()));
    assert_eq!(plugins.enable(NET, &mut log), Ok(()));
    assert_eq!(plugins.disable(UI, &mut log), vec![UI]);
    assert!(plugins.is_enabled(CORE));
    assert!(plugins.is_enabled(NET));
    assert!(!plugins.is_enabled(UI));
    assert!(plugins.is_loaded(UI));
}

#[test]
fn unload_disables_what_is_enabled() {
    let mut plugins = core_ui_net();
    let mut log = Vec::new();
    assert_eq!(plugins.enable(UI, &mut log), Ok(()));
    assert_eq!(plugins.load(NET, &mut log), Ok(()));
    log.clear();
    let (unloaded, disabled) = plugins.unload(CORE, &mut log);
    assert_eq!(unloaded, vec![NET, UI, CORE]);
    assert_eq!(disabled, vec![UI, CORE]);
    assert_eq!(
        lines(&log),
        vec!["disable 2", "disable 1", "unload 3", "unload 2", "unload 1"]
    );
}

#[test]
fn missing_constructor_is_reported_after_the_requirements_are_loaded() {
    let mut plugins = Registry::new();
    let mut log = Vec::new();
    assert_eq!(add(&mut plugins, 2, vec![]), Ok(2));
    assert_eq!(
        plugins.register(SimplePluginManifest::with_dependencies(1, "", vec![2]), None),
        Ok(1)
    );
    assert_eq!(plugins.load(1, &mut log), Err(LoadPluginError::MissingConstructor(1)));
    assert!(plugins.is_loaded(2));
    assert!(!plugins.is_loaded(1));
    assert_eq!(lines(&log), vec!["load 2"]);
    assert_eq!(plugins.enable(1, &mut log), Err(LoadPluginError::MissingConstructor(1)));
    assert_eq!(plugins.enabled_plugin_count(), 0);
}

#[test]
fn a_failed_load_keeps_what_was_loaded_until_then() {
    let mut plugins = Registry::new();
    let mut log = Vec::new();
    assert_eq!(add(&mut plugins, 1, vec![2, 3, 4]), Ok(1));
    assert_eq!(add(&mut plugins, 2, vec![]), Ok(2));
    assert_eq!(plugins.register(SimplePluginManifest::new(3, ""), None), Ok(3));
    assert_eq!(add(&mut plugins, 4, vec![]), Ok(4));
    assert_eq!(plugins.load(1, &mut log), Err(LoadPluginError::MissingConstructor(3)));
    assert_eq!(sorted(plugins.loaded_plugin_ids()), vec![2]);
    assert_eq!(lines(&log), vec!["load 2"]);
}

#[test]
fn unregistered_requirement_is_not_found() {
    let mut plugins = Registry::new();
    let mut log = Vec::new();
    assert_eq!(add(&mut plugins, 1, vec![2, 9]), Ok(1));
    assert_eq!(add(&mut plugins, 2, vec![]), Ok(2));
    assert_eq!(
        plugins.load(1, &mut log),
        Err(LoadPluginError::DependencyNotFound { plugin: 1, dependency: 9 })
    );
    assert!(plugins.is_loaded(2));
    assert!(!plugins.is_loaded(1));
    assert_eq!(
        plugins.enable(1, &mut log),
        Err(LoadPluginError::DependencyNotFound { plugin: 1, dependency: 9 })
    );
    assert!(!plugins.is_enabled(2));
}

#[test]
fn load_with_uses_the_given_instance() {
    let mut plugins = Registry::new();
    let mut log = Vec::new();
    assert_eq!(add(&mut plugins, 2, vec![]), Ok(2));
    assert_eq!(
        plugins.register(SimplePluginManifest::with_dependencies(1, "", vec![2]), None),
        Ok(1)
    );
    assert_eq!(plugins.load_with(1, Recorder { id: 77 }, &mut log), Ok(()));
    assert_eq!(lines(&log), vec!["load 2", "load 77"]);
    assert_eq!(plugins.get_loaded_plugin(1).unwrap().id, 77);
    assert_eq!(plugins.load_with(1, Recorder { id: 78 }, &mut log), Ok(()));
    assert_eq!(plugins.get_loaded_plugin(1).unwrap().id, 77);
    assert_eq!(
        plugins.load_with(5, Recorder { id: 5 }, &mut log),
        Err(LoadPluginError::NotFound(5))
    );
    assert_eq!(add(&mut plugins, 3, vec![8]), Ok(3));
    assert_eq!(
        plugins.load_with(3, Recorder { id: 3 }, &mut log),
        Err(LoadPluginError::DependencyNotFound { plugin: 3, dependency: 8 })
    );
}

#[test]
fn loaded_instance_can_be_reached_and_changed() {
    let mut plugins = core_ui_net();
    let mut log = Vec::new();
    assert!(plugins.get_loaded_plugin_mut(CORE).is_none());
    assert_eq!(plugins.load(CORE, &mut log), Ok(()));
    assert!(plugins.get_enabled_plugin_mut(CORE).is_none());
    plugins.get_loaded_plugin_mut(CORE).unwrap().id = 100;
    assert_eq!(plugins.get_loaded_plugin(CORE).unwrap().id, 100);
    assert_eq!(plugins.enable(CORE, &mut log), Ok(()));
    plugins.get_enabled_plugin_mut(CORE).unwrap().id = 101;
    assert_eq!(plugins.get_enabled_plugin(CORE).unwrap().id, 101);
    assert!(plugins.get_loaded_plugin_mut(9).is_none());
    assert!(plugins.is_loaded(CORE));
    assert!(plugins.is_enabled(CORE));
    assert_eq!(lines(&log), vec!["load 1", "enable 100"]);
}

#[test]
fn remove_unloads_and_forgets_the_plugin() {
    let mut plugins = core_ui_net();
    let mut log = Vec::new();
    assert_eq!(plugins.enable(UI, &mut log), Ok(()));
    log.clear();
    let (found, unloaded, disabled) = plugins.remove(CORE, &mut log);
    assert!(found);
    assert_eq!(unloaded, vec![UI, CORE]);
    assert_eq!(disabled, vec![UI, CORE]);
    assert!(!plugins.is_registered(CORE));
    assert!(plugins.is_registered(UI));
    assert_eq!(plugins.plugin_count(), 2);
    // The plugin is still named by those that require it.
    assert_eq!(
        plugins.load(UI, &mut log),
        Err(LoadPluginError::DependencyNotFound { plugin: UI, dependency: CORE })
    );
    let (found, unloaded, disabled) = plugins.remove(CORE, &mut log);
    assert!(!found);
    assert!(unloaded.is_empty());
    assert!(disabled.is_empty());
    assert_eq!(plugins.register(SimplePluginManifest::new(CORE, "core"), Some(make_core)), Ok(CORE));
    assert_eq!(plugins.load(UI, &mut log), Ok(()));
}

#[test]
fn a_removed_leaf_takes_its_requirements_out_of_the_graph() {
    let mut plugins = Registry::new();
    let mut log = Vec::new();
    assert_eq!(add(&mut plugins, 1, vec![2]), Ok(1));
    assert_eq!(add(&mut plugins, 2, vec![]), Ok(2));
    assert!(plugins.remove(1, &mut log).0);
    // With 1 gone from the graph, 2 may now come to require 1.
    assert!(plugins.remove(2, &mut log).0);
    assert_eq!(add(&mut plugins, 2, vec![1]), Ok(2));
    assert_eq!(add(&mut plugins, 1, vec![]), Ok(1));
    assert_eq!(plugins.load(2, &mut log), Ok(()));
    assert_eq!(lines(&log), vec!["load 1", "load 2"]);
}

struct Publisher {
    id: u64,
}

impl Plugin<String, ()> for Publisher {
    fn load(&mut self, hooks: &mut biner::HookRegistry<String>, _context: &mut ()) {
        let slot = std::any::TypeId::of::<Publisher>();
        hooks.register(slot, format!("service of {}", self.id), self.id, None).unwrap();
    }
}

fn publisher_1() -> Publisher {
    Publisher { id: 1 }
}

fn publisher_2() -> Publisher {
    Publisher { id: 2 }
}

#[test]
fn hooks_published_on_load_are_gone_after_unload() {
    let slot = std::any::TypeId::of::<Publisher>();
    let mut plugins: PluginRegistry<SimplePluginManifest, String, Publisher, fn() -> Publisher> =
        PluginRegistry::default();
    assert_eq!(plugins.register(SimplePluginManifest::new(1, ""), Some(publisher_1)), Ok(1));
    assert_eq!(
        plugins.register(SimplePluginManifest::with_dependencies(2, "", vec![1]), Some(publisher_2)),
        Ok(2)
    );
    assert_eq!(plugins.load(2, &mut ()), Ok(()));
    assert_eq!(plugins.hooks().get_first(slot, 1), Some(&"service of 1".to_string()));
    assert_eq!(plugins.hooks().get_first(slot, 2), Some(&"service of 2".to_string()));
    assert_eq!(plugins.hooks().slot_hooks_and_plugin(slot).len(), 2);
    plugins.hooks_mut().register(slot, "by hand".to_string(), 7, None).unwrap();

    let (unloaded, _) = plugins.unload(2, &mut ());
    assert_eq!(unloaded, vec![2]);
    assert!(!plugins.hooks().exists_any(slot, 2));
    assert!(plugins.hooks().exists_any(slot, 1));
    let (unloaded, _) = plugins.unload(1, &mut ());
    assert_eq!(unloaded, vec![1]);
    assert!(!plugins.hooks().exists_any(slot, 1));
    assert_eq!(plugins.hooks().get_first(slot, 7), Some(&"by hand".to_string()));
    assert_eq!(plugins.hooks().slot_hooks_and_plugin(slot).len(), 1);
}

#[test]
fn a_requirement_listed_twice_counts_at_its_later_position() {
    let mut plugins = Registry::new();
    let mut log = Vec::new();
    assert_eq!(add(&mut plugins, 1, vec![2, 3, 2]), Ok(1));
    assert_eq!(add(&mut plugins, 2, vec![]), Ok(2));
    assert_eq!(add(&mut plugins, 3, vec![]), Ok(3));
    assert_eq!(plugins.load(1, &mut log), Ok(()));
    assert_eq!(lines(&log), vec!["load 3", "load 2", "load 1"]);
}

#[test]
fn dependents_at_the_same_position_go_by_id() {
    let mut plugins = Registry::new();
    let mut log = Vec::new();
    assert_eq!(add(&mut plugins, 1, vec![]), Ok(1));
    assert_eq!(add(&mut plugins, 4, vec![1]), Ok(4));
    assert_eq!(add(&mut plugins, 2, vec![1]), Ok(2));
    assert_eq!(add(&mut plugins, 3, vec![1]), Ok(3));
    for id in [3, 2, 4] {
        assert_eq!(plugins.enable(id, &mut log), Ok(()));
    }
    let (unloaded, disabled) = plugins.unload(1, &mut log);
    assert_eq!(disabled, vec![4, 3, 2, 1]);
    assert_eq!(unloaded, vec![4, 3, 2, 1]);
}

#[test]
fn a_long_chain_is_loaded_from_its_far_end() {
    let mut plugins: PluginRegistry<SimplePluginManifest, String, Recorder, fn() -> Recorder> =
        PluginRegistry::with_capacity(64);
    let mut log = Vec::new();
    for id in 1..=40u64 {
        let deps = if id < 40 { vec![id + 1] } else { vec![] };
        assert_eq!(
            plugins.register(SimplePluginManifest::with_dependencies(id, "", deps), Some(recorder_4)),
            Ok(id)
        );
    }
    assert_eq!(
        plugins.register(SimplePluginManifest::with_dependencies(41, "", vec![1]), Some(recorder_4)),
        Ok(41)
    );
    assert_eq!(
        plugins.register(SimplePluginManifest::with_dependencies(42, "", vec![41, 42]), None),
        Err(RegisterPluginError::CyclicDependency(42))
    );
    assert_eq!(plugins.enable(41, &mut log), Ok(()));
    assert_eq!(plugins.loaded_plugin_count(), 41);
    assert_eq!(plugins.enabled_plugin_count(), 41);
    assert_eq!(log.len(), 82);
    let disabled = plugins.disable(40, &mut log);
    assert_eq!(disabled.len(), 41);
    assert_eq!(disabled.first(), Some(&41));
    assert_eq!(disabled.last(), Some(&40));
    assert_eq!(sorted(plugins.enabled_plugin_ids()), Vec::<u64>::new());
    assert_eq!(sorted(plugins.loaded_plugin_ids()), (1..=41).collect::<Vec<u64>>());
}

#[test]
fn many_requirements_are_taken_in_declared_order() {
    let mut plugins = Registry::new();
    let mut log = Vec::new();
    let deps: Vec<u64> = (2..=30).rev().collect();
    assert_eq!(
        plugins.register(SimplePluginManifest::with_dependencies(1, "", deps.clone()), Some(recorder_1)),
        Ok(1)
    );
    for id in 2..=30u64 {
        assert_eq!(
            plugins.register(SimplePluginManifest::new(id, ""), Some(recorder_2)),
            Ok(id)
        );
    }
    assert_eq!(plugins.load(1, &mut log), Ok(()));
    assert_eq!(log.len(), 30);
    assert_eq!(log.last().unwrap(), "load 1");
    assert_eq!(sorted(plugins.loaded_plugin_ids()), (1..=30).collect::<Vec<u64>>());
}

#[test]
fn remove_purges_the_hooks_of_a_plugin_that_was_never_loaded() {
    let slot = std::any::TypeId::of::<Publisher>();
    let other_slot = std::any::TypeId::of::<Recorder>();
    let mut plugins: PluginRegistry<SimplePluginManifest, String, Publisher, fn() -> Publisher> =
        PluginRegistry::new();
    assert_eq!(plugins.register(SimplePluginManifest::new(1, ""), Some(publisher_1)), Ok(1));
    assert_eq!(plugins.register(SimplePluginManifest::new(2, ""), Some(publisher_2)), Ok(2));
    plugins.hooks_mut().register(slot, "for 1".to_string(), 1, None).unwrap();
    plugins.hooks_mut().register(other_slot, "also for 1".to_string(), 1, Some(4)).unwrap();
    plugins.hooks_mut().register(slot, "for 2".to_string(), 2, None).unwrap();
    plugins.hooks_mut().register(slot, "for 9".to_string(), 9, None).unwrap();
    assert!(!plugins.is_loaded(1));

    let (found, unloaded, disabled) = plugins.remove(1, &mut ());
    assert!(found);
    assert!(unloaded.is_empty());
    assert!(disabled.is_empty());
    assert!(!plugins.hooks().exists_any(slot, 1));
    assert!(!plugins.hooks().exists_any(other_slot, 1));
    assert!(plugins.hooks().get_exact(other_slot, 1, Some(4)).is_none());
    assert!(plugins.hooks().plugin_slot_hooks(slot, 1).is_empty());
    assert!(plugins.hooks().slot_hooks_and_plugin(other_slot).is_empty());
    let mut owners: Vec<u64> =
        plugins.hooks().slot_hooks_and_plugin(slot).into_iter().map(|(p, _)| p).collect();
    owners.sort();
    assert_eq!(owners, vec![2, 9]);
    assert_eq!(plugins.hooks().get_first(slot, 2), Some(&"for 2".to_string()));

    // An id that is not registered is not removed, and what is filed under it stays.
    let (found, _, _) = plugins.remove(9, &mut ());
    assert!(!found);
    assert_eq!(plugins.hooks().get_first(slot, 9), Some(&"for 9".to_string()));
}

#[test]
fn remove_purges_the_hooks_of_a_loaded_plugin_and_of_what_requires_it() {
    let slot = std::any::TypeId::of::<Publisher>();
    let mut plugins: PluginRegistry<SimplePluginManifest, String, Publisher, fn() -> Publisher> =
        PluginRegistry::new();
    assert_eq!(plugins.register(SimplePluginManifest::new(1, ""), Some(publisher_1)), Ok(1));
    assert_eq!(
        plugins.register(SimplePluginManifest::with_dependencies(2, "", vec![1]), Some(publisher_2)),
        Ok(2)
    );
    assert_eq!(plugins.load(2, &mut ()), Ok(()));
    assert_eq!(plugins.hooks().slot_hooks_and_plugin(slot).len(), 2);
    let (found, unloaded, _) = plugins.remove(1, &mut ());
    assert!(found);
    assert_eq!(unloaded, vec![2, 1]);
    assert!(plugins.hooks().slot_hooks_and_plugin(slot).is_empty());
    assert!(plugins.is_registered(2));
    assert!(!plugins.is_registered(1));
}

#[test]
fn loading_what_is_loaded_leaves_the_hooks_alone() {
    let slot = std::any::TypeId::of::<Publisher>();
    let mut plugins: PluginRegistry<SimplePluginManifest, String, Publisher, fn() -> Publisher> =
        PluginRegistry::new();
    assert_eq!(plugins.register(SimplePluginManifest::new(1, ""), Some(publisher_1)), Ok(1));
    assert_eq!(plugins.load(1, &mut ()), Ok(()));
    plugins.hooks_mut().register(slot, "extra".to_string(), 1, Some(2)).unwrap();
    assert_eq!(plugins.load(1, &mut ()), Ok(()));
    assert_eq!(plugins.load_with(1, Publisher { id: 5 }, &mut ()), Ok(()));
    assert_eq!(plugins.load(7, &mut ()), Err(LoadPluginError::NotFound(7)));
    assert_eq!(plugins.enable(1, &mut ()), Ok(()));
    assert_eq!(plugins.enable(1, &mut ()), Ok(()));
    assert_eq!(plugins.hooks().plugin_slot_hooks(slot, 1).len(), 2);
    assert_eq!(plugins.hooks().get_exact(slot, 1, Some(2)), Some(&"extra".to_string()));
}
