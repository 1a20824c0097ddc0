use biner::Hook;
use biner::HookRegistry;
use std::any::Any;
use std::any::TypeId;

struct Greeter;
struct Logger;

fn greeter() -> TypeId {
    TypeId::of::<Greeter>()
}

fn logger() -> TypeId {
    TypeId::of::<Logger>()
}

const ALPHA: u64 = 10;
const BETA: u64 = 20;

fn texts(values: Vec<&String>) -> Vec<String> {
    values.into_iter().cloned().collect()
}

#[test]
fn hook_new_keeps_its_key() {
    let hook = Hook::new(ALPHA, greeter(), Some(3), "hello".to_string());
    assert_eq!(hook.plugin, ALPHA);
    assert_eq!(hook.slot, greeter());
    assert_eq!(hook.name, Some(3));
    assert_eq!(hook.ptr, "hello");
}

#[test]
fn empty_registry_finds_nothing() {
    let hooks: HookRegistry<String> = HookRegistry::new();
    assert!(!hooks.exists_any(greeter(), ALPHA));
    assert!(!hooks.exists_exact(greeter(), ALPHA, None));
    assert!(hooks.get_first(greeter(), ALPHA).is_none());
    assert!(hooks.get_exact(greeter(), ALPHA, Some(1)).is_none());
    assert!(hooks.plugin_slot_hooks(greeter(), ALPHA).is_empty());
    assert!(hooks.slot_hooks_and_plugin(greeter()).is_empty());
    let by_default: HookRegistry<String> = HookRegistry::default();
    assert!(!by_default.exists_any(greeter(), ALPHA));
}

#[test]
fn registering_the_same_triple_twice_hands_the_value_back() {
    let mut hooks: HookRegistry<String> = HookRegistry::new();
    assert_eq!(hooks.register(greeter(), "first".to_string(), ALPHA, Some(1)), Ok(()));
    assert_eq!(
        hooks.register(greeter(), "second".to_string(), ALPHA, Some(1)),
        Err("second".to_string())
    );
    assert_eq!(texts(hooks.plugin_slot_hooks(greeter(), ALPHA)), vec!["first".to_string()]);
    assert_eq!(hooks.get_exact(greeter(), ALPHA, Some(1)), Some(&"first".to_string()));
}

#[test]
fn unnamed_hook_is_a_name_of_its_own() {
    let mut hooks: HookRegistry<String> = HookRegistry::new();
    assert_eq!(hooks.register(greeter(), "plain".to_string(), ALPHA, None), Ok(()));
    assert_eq!(hooks.register(greeter(), "named".to_string(), ALPHA, Some(7)), Ok(()));
    assert_eq!(hooks.register(greeter(), "plain again".to_string(), ALPHA, None), Err("plain again".to_string()));
    assert!(hooks.exists_exact(greeter(), ALPHA, None));
    assert!(hooks.exists_exact(greeter(), ALPHA, Some(7)));
    assert!(!hooks.exists_exact(greeter(), ALPHA, Some(8)));
    assert_eq!(hooks.get_first(greeter(), ALPHA), Some(&"plain".to_string()));
    assert_eq!(hooks.get_exact(greeter(), ALPHA, Some(7)), Some(&"named".to_string()));
    assert_eq!(hooks.get_first_hook(ALPHA, greeter()).unwrap().name, None);
    assert_eq!(hooks.get_exact_hook(ALPHA, greeter(), Some(7)).unwrap().ptr, "named");
}

#[test]
fn slots_and_plugins_are_kept_apart() {
    let mut hooks: HookRegistry<String> = HookRegistry::new();
    assert_eq!(hooks.register(greeter(), "a greets".to_string(), ALPHA, None), Ok(()));
    assert_eq!(hooks.register(logger(), "a logs".to_string(), ALPHA, None), Ok(()));
    assert_eq!(hooks.register(greeter(), "b greets".to_string(), BETA, None), Ok(()));
    assert_eq!(hooks.get_first(greeter(), ALPHA), Some(&"a greets".to_string()));
    assert_eq!(hooks.get_first(logger(), ALPHA), Some(&"a logs".to_string()));
    assert_eq!(hooks.get_first(greeter(), BETA), Some(&"b greets".to_string()));
    assert!(hooks.get_first(logger(), BETA).is_none());
    assert!(hooks.exists_any(logger(), ALPHA));
    assert!(!hooks.exists_any(logger(), BETA));
}

#[test]
fn hooks_of_a_plugin_come_in_order_of_registration() {
    let mut hooks: HookRegistry<String> = HookRegistry::new();
    for (name, text) in [(1, "one"), (2, "two"), (3, "three")] {
        assert_eq!(hooks.register(greeter(), text.to_string(), ALPHA, Some(name)), Ok(()));
    }
    assert_eq!(
        texts(hooks.plugin_slot_hooks(greeter(), ALPHA)),
        vec!["one".to_string(), "two".to_string(), "three".to_string()]
    );
}

#[test]
fn removing_a_hook_moves_the_last_into_its_place() {
    let mut hooks: HookRegistry<String> = HookRegistry::new();
    for (name, text) in [(1, "one"), (2, "two"), (3, "three")] {
        assert_eq!(hooks.register(greeter(), text.to_string(), ALPHA, Some(name)), Ok(()));
    }
    assert_eq!(hooks.remove(greeter(), ALPHA, Some(1)), Some("one".to_string()));
    assert_eq!(
        texts(hooks.plugin_slot_hooks(greeter(), ALPHA)),
        vec!["three".to_string(), "two".to_string()]
    );
    assert_eq!(hooks.remove(greeter(), ALPHA, Some(1)), None);
    assert_eq!(hooks.remove(greeter(), BETA, Some(2)), None);
    assert_eq!(hooks.remove(logger(), ALPHA, Some(2)), None);
    assert_eq!(hooks.remove(greeter(), ALPHA, Some(2)), Some("two".to_string()));
    assert_eq!(hooks.remove(greeter(), ALPHA, Some(3)), Some("three".to_string()));
    assert!(!hooks.exists_any(greeter(), ALPHA));
    assert_eq!(hooks.register(greeter(), "back".to_string(), ALPHA, Some(1)), Ok(()));
    assert_eq!(hooks.get_first(greeter(), ALPHA), Some(&"back".to_string()));
}

#[test]
fn removing_a_plugins_hooks_leaves_none_in_any_slot() {
    let mut hooks: HookRegistry<String> = HookRegistry::new();
    assert_eq!(hooks.register(greeter(), "a greets".to_string(), ALPHA, None), Ok(()));
    assert_eq!(hooks.register(greeter(), "a greets loudly".to_string(), ALPHA, Some(1)), Ok(()));
    assert_eq!(hooks.register(logger(), "a logs".to_string(), ALPHA, None), Ok(()));
    assert_eq!(hooks.register(greeter(), "b greets".to_string(), BETA, None), Ok(()));
    hooks.remove_plugin_hooks(ALPHA);
    assert!(!hooks.exists_any(greeter(), ALPHA));
    assert!(!hooks.exists_any(logger(), ALPHA));
    assert!(hooks.get_exact(greeter(), ALPHA, Some(1)).is_none());
    assert!(hooks.plugin_slot_hooks(greeter(), ALPHA).is_empty());
    assert!(hooks.slot_hooks_and_plugin(logger()).is_empty());
    let left: Vec<(u64, String)> =
        hooks.slot_hooks_and_plugin(greeter()).into_iter().map(|(p, v)| (p, v.clone())).collect();
    assert_eq!(left, vec![(BETA, "b greets".to_string())]);
    hooks.remove_plugin_hooks(ALPHA);
    assert_eq!(hooks.get_first(greeter(), BETA), Some(&"b greets".to_string()));
}

#[test]
fn all_hooks_of_a_slot_come_with_their_plugin() {
    let mut hooks: HookRegistry<String> = HookRegistry::new();
    assert_eq!(hooks.register(greeter(), "a1".to_string(), ALPHA, Some(1)), Ok(()));
    assert_eq!(hooks.register(logger(), "a log".to_string(), ALPHA, None), Ok(()));
    assert_eq!(hooks.register(greeter(), "b1".to_string(), BETA, Some(1)), Ok(()));
    assert_eq!(hooks.register(greeter(), "a2".to_string(), ALPHA, Some(2)), Ok(()));
    let mut all: Vec<(u64, String)> =
        hooks.slot_hooks_and_plugin(greeter()).into_iter().map(|(p, v)| (p, v.clone())).collect();
    let of_alpha: Vec<String> =
        all.iter().filter(|(p, _)| *p == ALPHA).map(|(_, v)| v.clone()).collect();
    assert_eq!(of_alpha, vec!["a1".to_string(), "a2".to_string()]);
    all.sort();
    assert_eq!(
        all,
        vec![(ALPHA, "a1".to_string()), (ALPHA, "a2".to_string()), (BETA, "b1".to_string())]
    );
}

#[test]
fn values_can_be_changed_in_place() {
    let mut hooks: HookRegistry<String> = HookRegistry::new();
    assert_eq!(hooks.register(greeter(), "one".to_string(), ALPHA, Some(1)), Ok(()));
    assert_eq!(hooks.register(greeter(), "two".to_string(), ALPHA, Some(2)), Ok(()));
    assert_eq!(hooks.register(greeter(), "other".to_string(), BETA, None), Ok(()));

    hooks.get_first_mut(greeter(), ALPHA).unwrap().push_str("!");
    hooks.get_exact_mut(greeter(), ALPHA, Some(2)).unwrap().push_str("?");
    assert!(hooks.get_exact_mut(greeter(), ALPHA, Some(3)).is_none());
    assert!(hooks.get_first_mut(logger(), ALPHA).is_none());
    assert_eq!(
        texts(hooks.plugin_slot_hooks(greeter(), ALPHA)),
        vec!["one!".to_string(), "two?".to_string()]
    );

    *hooks.plugin_slot_hooks_mut(greeter(), ALPHA, 1).unwrap() = "second".to_string();
    assert!(hooks.plugin_slot_hooks_mut(greeter(), ALPHA, 2).is_none());
    assert_eq!(hooks.get_exact(greeter(), ALPHA, Some(2)), Some(&"second".to_string()));

    let count = hooks.slot_hooks_and_plugin(greeter()).len();
    assert_eq!(count, 3);
    for index in 0..count {
        let (plugin, value) = hooks.slot_hooks_and_plugin_mut(greeter(), index).unwrap();
        *value = format!("{} of {}", value, plugin);
    }
    assert!(hooks.slot_hooks_and_plugin_mut(greeter(), count).is_none());
    assert_eq!(hooks.get_first(greeter(), ALPHA), Some(&"one! of 10".to_string()));
    assert_eq!(hooks.get_exact(greeter(), ALPHA, Some(2)), Some(&"second of 10".to_string()));
    assert_eq!(hooks.get_first(greeter(), BETA), Some(&"other of 20".to_string()));
}

#[test]
fn shrinking_changes_nothing_that_can_be_found() {
    let mut hooks: HookRegistry<String> = HookRegistry::new();
    assert_eq!(hooks.register(greeter(), "one".to_string(), ALPHA, Some(1)), Ok(()));
    assert_eq!(hooks.register(logger(), "log".to_string(), ALPHA, None), Ok(()));
    assert_eq!(hooks.register(greeter(), "two".to_string(), BETA, Some(2)), Ok(()));
    assert_eq!(hooks.remove(greeter(), ALPHA, Some(1)), Some("one".to_string()));
    hooks.shrink_to_fit();
    assert!(!hooks.exists_any(greeter(), ALPHA));
    assert_eq!(hooks.get_first(logger(), ALPHA), Some(&"log".to_string()));
    assert_eq!(hooks.get_first(greeter(), BETA), Some(&"two".to_string()));
    assert_eq!(hooks.register(greeter(), "one again".to_string(), ALPHA, Some(1)), Ok(()));
    assert_eq!(hooks.get_exact(greeter(), ALPHA, Some(1)), Some(&"one again".to_string()));
}

trait Speak: Send + Sync {
    fn speak(&self) -> String;
}

struct English;

impl Speak for English {
    fn speak(&self) -> String {
        "hello".to_string()
    }
}

#[test]
fn boxed_capabilities_can_be_stored_and_told_apart_by_type() {
    let mut hooks: HookRegistry<Box<dyn Any + Send + Sync>> = HookRegistry::new();
    let capability: Box<dyn Speak> = Box::new(English);
    assert!(hooks.register(greeter(), Box::new(capability), ALPHA, None).is_ok());
    let found = hooks.get_first(greeter(), ALPHA).unwrap();
    let speaker = found.downcast_ref::<Box<dyn Speak>>().unwrap();
    assert_eq!(speaker.speak(), "hello");
    assert!(found.downcast_ref::<String>().is_none());
    let again: Box<dyn Speak> = Box::new(English);
    let back = hooks.register(greeter(), Box::new(again), ALPHA, None).unwrap_err();
    assert_eq!(back.downcast_ref::<Box<dyn Speak>>().unwrap().speak(), "hello");
}
