//! A modular plugin framework with typed hooks and a dependency-ordered lifecycle.
//!
//! A host registers plugins by manifest, and the engine loads, enables, disables and unloads
//! them in the order that their declared dependencies demand. Plugins publish capability
//! values in a hook registry, keyed by slot, owning plugin and an optional name.

pub mod cascade;
pub mod deps;
pub mod error;
pub mod graph;
pub mod hook;
pub mod laws;
pub mod lifecycle;
pub mod manifest;
pub mod plugin;
pub mod reach;

pub use deps::DependencyGraph;
pub use error::LoadPluginError;
pub use error::RegisterPluginError;
pub use hook::Hook;
pub use hook::HookRegistry;
pub use manifest::PluginManifest;
pub use manifest::SimplePluginManifest;
pub use plugin::Plugin;
pub use plugin::PluginRegistry;
pub use plugin::PluginState;
