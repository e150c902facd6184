//! Architectural boundary checks for .NET solutions: layer resolution, dependency and
//! package rules, source-level `using` rules, baselines, and the init scaffold's analysis.

pub mod baseline;
pub mod check;
pub mod config;
pub mod explain;
pub mod generator;
pub mod graph;
pub mod laws;
pub mod paths;
pub mod order;
pub mod project;
pub mod report;
pub mod rules;
pub mod scaffold;
pub mod scanner;
pub mod search;
pub mod text;
pub mod tiers;
pub mod wizard;
