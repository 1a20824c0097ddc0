//! The errors of registration and of the lifecycle operations.

use vstd::prelude::*;

verus! {

/// An error occurred while registering a plugin.
#[derive(Debug, Clone, PartialEq, Eq, PartialOrd, Ord, Hash)]
pub enum RegisterPluginError<Id> {
    /// A plugin with the same id has already been registered.
    Duplicate(Id),
    /// Registering the plugin would introduce a cyclic dependency which cannot be resolved.
    CyclicDependency(Id),
}

/// An error occurred while loading or enabling a plugin.
#[derive(Debug, Clone, PartialEq, Eq, PartialOrd, Ord, Hash)]
pub enum LoadPluginError<Id> {
    /// No plugin with the given plugin id is currently registered.
    NotFound(Id),
    /// A plugin could not be loaded because it was not registered with a constructor.
    MissingConstructor(Id),
    /// A plugin could not be loaded because one of its dependencies has not been registered.
    DependencyNotFound {
        /// Plugin id of the plugin specifying the dependency.
        plugin: Id,
        /// Plugin id of the dependency that is not registered.
        dependency: Id,
    },
    /// A dependency was rejected by the manifest of the plugin that requires it.
    DependencyMismatch {
        /// Plugin id of the plugin specifying the dependency.
        plugin: Id,
        /// Plugin id of the dependency that did not match the plugin's requirements.
        dependency: Id,
        /// Explanation provided by the plugin for why it rejected the dependency.
        reason: String,
    },
}

} // verus!
