//! Plugin manifests: the id of a plugin, what it requires, and which candidates it accepts.

use vstd::prelude::*;

verus! {

/// Metadata about a plugin, including its id and required dependencies. A plugin host can
/// provide its own manifest type with further metadata; [`SimplePluginManifest`] covers the
/// basic needs.
///
/// Each method has a specification counterpart that names what it returns. An implementation
/// promises that the method returns just that, so that a manifest says the same thing each
/// time it is asked.
pub trait PluginManifest: Sized {
    /// The id that [`PluginManifest::id`] returns.
    spec fn spec_id(&self) -> u64;

    /// The list that [`PluginManifest::dependencies`] returns.
    spec fn spec_dependencies(&self) -> Seq<u64>;

    /// The verdict that [`PluginManifest::dependency_matches`] returns.
    spec fn spec_dependency_matches(&self, dependency: &Self) -> Result<(), String>;

    /// Get the id of the plugin this manifest represents. This id never changes.
    fn id(&self) -> (id: u64)
        ensures
            id == self.spec_id(),
    ;

    /// The plugins that must be loaded and enabled before this one, in declared order.
    fn dependencies(&self) -> (deps: &[u64])
        ensures
            deps@ == self.spec_dependencies(),
    ;

    /// Determines whether the manifest of a declared dependency meets this plugin's
    /// requirements. An `Err` carries the reason for the rejection.
    fn dependency_matches(&self, dependency: &Self) -> (verdict: Result<(), String>)
        ensures
            verdict == self.spec_dependency_matches(dependency),
    ;
}

/// A default [`PluginManifest`] with an id, a description and a list of dependencies. It
/// accepts every dependency.
#[derive(Debug, PartialEq, Eq)]
pub struct SimplePluginManifest {
    id: u64,
    description: &'static str,
    dependencies: Vec<u64>,
}

impl SimplePluginManifest {
    /// The id given at construction.
    pub closed spec fn plugin_id(&self) -> u64 {
        self.id
    }

    /// The description given at construction.
    pub closed spec fn text(&self) -> &'static str {
        self.description
    }

    /// The dependencies given at construction.
    pub closed spec fn requires_list(&self) -> Seq<u64> {
        self.dependencies@
    }

    /// Create a plugin manifest with a given plugin id and description and no plugin
    /// dependencies.
    pub fn new(id: u64, description: &'static str) -> (manifest: Self)
        ensures
            manifest.plugin_id() == id,
            manifest.text() == description,
            manifest.requires_list() == Seq::<u64>::empty(),
    {
        SimplePluginManifest { id, description, dependencies: Vec::new() }
    }

    /// Create a plugin manifest with a given plugin id and description and a list of plugin
    /// dependencies.
    pub fn with_dependencies(id: u64, description: &'static str, dependencies: Vec<u64>) -> (manifest:
        Self)
        ensures
            manifest.plugin_id() == id,
            manifest.text() == description,
            manifest.requires_list() == dependencies@,
    {
        SimplePluginManifest { id, description, dependencies }
    }

    /// Get the description of the plugin.
    pub fn description(&self) -> (text: &str)
        ensures
            text == self.text(),
    {
        self.description
    }
}

impl PluginManifest for SimplePluginManifest {
    open spec fn spec_id(&self) -> u64 {
        self.plugin_id()
    }

    open spec fn spec_dependencies(&self) -> Seq<u64> {
        self.requires_list()
    }

    open spec fn spec_dependency_matches(&self, dependency: &Self) -> Result<(), String> {
        Ok(())
    }

    fn id(&self) -> (id: u64) {
        self.id
    }

    fn dependencies(&self) -> (deps: &[u64]) {
        self.dependencies.as_slice()
    }

    fn dependency_matches(&self, dependency: &Self) -> (verdict: Result<(), String>) {
        Ok(())
    }
}

impl Default for SimplePluginManifest {
    /// The manifest of plugin 0, with an empty description and no dependencies.
    fn default() -> (manifest: Self)
        ensures
            manifest.plugin_id() == 0,
            manifest.text() == "",
            manifest.requires_list() == Seq::<u64>::empty(),
    {
        SimplePluginManifest { id: 0, description: "", dependencies: Vec::new() }
    }
}

} // verus!
