use biner::LoadPluginError;
use biner::Plugin;
use biner::PluginManifest;
use biner::PluginRegistry;

/// A manifest that carries a version and accepts a dependency only from a given version on.
struct Versioned {
    id: u64,
    version: u32,
    dependencies: Vec<u64>,
    needs_at_least: u32,
}

impl PluginManifest for Versioned {
    fn spec_id(&self) -> u64 {
        unreachable!()
    }

    fn spec_dependencies(&self) -> vstd::seq::Seq<u64> {
        unreachable!()
    }

    fn spec_dependency_matches(&self, _dependency: &Self) -> Result<(), String> {
        unreachable!()
    }

    fn id(&self) -> u64 {
        self.id
    }

    fn dependencies(&self) -> &[u64] {
        &self.dependencies
    }

    fn dependency_matches(&self, dependency: &Self) -> Result<(), String> {
        if dependency.version >= self.needs_at_least {
            Ok(())
        } else {
            Err(format!("version {} is too old", dependency.version))
        }
    }
}

struct Quiet;

impl Plugin<(), ()> for Quiet {}

fn make_quiet() -> Quiet {
    Quiet
}

#[test]
fn rejected_dependency_is_a_mismatch() {
    let mut plugins: PluginRegistry<Versioned, (), Quiet, fn() -> Quiet> = PluginRegistry::new();
    let old_base = Versioned { id: 1, version: 1, dependencies: vec![], needs_at_least: 0 };
    let app = Versioned { id: 2, version: 1, dependencies: vec![1], needs_at_least: 2 };
    assert_eq!(plugins.register(old_base, Some(make_quiet)), Ok(1));
    assert_eq!(plugins.register(app, Some(make_quiet)), Ok(2));
    assert_eq!(
        plugins.load(2, &mut ()),
        Err(LoadPluginError::DependencyMismatch {
            plugin: 2,
            dependency: 1,
            reason: "version 1 is too old".to_string(),
        })
    );
    assert!(!plugins.is_loaded(1));
    assert!(!plugins.is_loaded(2));
}
