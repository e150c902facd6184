//! The architecture configuration: layers, dependency rules, package policies and
//! ignore patterns.

use vstd::prelude::*;

verus! {

/// The whole configuration of a solution's architecture.
#[derive(Debug)]
pub struct ArchitectureConfig {
    pub layers: Vec<Layer>,
    pub dependency_rules: Vec<DependencyRule>,
    /// Absent in the file means empty.
    pub package_policies: Vec<PackagePolicy>,
    /// Glob patterns of project names that every check skips. Absent means empty.
    pub ignore_patterns: Vec<String>,
}

/// A named layer and the patterns that place projects and namespaces in it.
#[derive(Debug)]
pub struct Layer {
    pub name: String,
    /// Glob patterns matched against project names (e.g. "*.Api", "*.Domain").
    pub patterns: Vec<String>,
    /// Glob patterns matched against C# namespaces (e.g. "MyApp.Domain.*"); source
    /// scanning of a layer needs them.
    pub namespace_patterns: Vec<String>,
}

/// Whether layer `from` may depend on layer `to`.
#[derive(Debug)]
pub struct DependencyRule {
    pub from: String,
    pub to: String,
    /// `true`: the dependency is allowed; `false`: forbidden.
    pub allowed: bool,
}

/// Packages that the projects of a layer must not reference.
#[derive(Debug)]
pub struct PackagePolicy {
    pub layer: String,
    pub forbidden: Vec<String>,
}

} // verus!
