//! A small dependency-injection container.
//!
//! Implementations are registered against interface keys in a [`Registry`],
//! a build step validates the declared graph (no missing bindings, no
//! dependency cycles, no unset parameters), applies caller-supplied
//! [`Override`]s, eagerly constructs one shared instance per singleton
//! binding, and packages the result as an immutable [`Container`] that
//! answers key-based lookups, invoking transient providers on demand.

use vstd::prelude::*;

pub mod builder;
pub mod container;
pub mod descriptor;
pub mod overrides;
pub mod registry;
pub mod services;

pub use builder::{build, lemma_acyclic_excludes_cycle, lemma_cycle_excludes_order,
    lemma_order_excludes_cycle};
pub use container::Container;

pub use descriptor::{DepRef, Descriptor, Instance, Lifecycle, Param};
pub use overrides::Override;
pub use registry::Registry;

verus! {

/// Failure of a registry operation.
#[derive(Debug)]
pub enum RegistryError {
    /// The interface key was already bound when a second binding was attempted.
    DuplicateBinding(String),
    /// No binding exists for the requested interface key.
    UnknownInterface(String),
}

/// Failure of a build: the declared graph cannot produce a container.
#[derive(Debug)]
pub enum BuildError {
    /// An override targets an interface key that is not bound.
    UnknownInterface(String),
    /// A descriptor (or a parameter override) names a parameter that has no
    /// value, or that the descriptor does not declare.
    MissingParameter { key: String, name: String },
    /// A descriptor declares a dependency on an interface key that is not bound.
    MissingDependency { key: String, dependency: String },
    /// The dependency relation contains a cycle; the path lists the keys of
    /// the cycle in dependency order, with the starting key repeated at the end.
    DependencyCycle(Vec<String>),
    /// A singleton's construction function failed while the build was
    /// constructing the shared instances.
    ComponentConstructionFailed { key: String, cause: String },
}

/// Failure of a resolution against a finished container.
#[derive(Debug)]
pub enum ResolutionError {
    /// No binding exists for the requested interface key.
    UnknownInterface(String),
    /// A transient provider's construction function failed.
    ProviderFailed { key: String, cause: String },
}

} // verus!
