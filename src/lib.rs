//! Symbol-dependency graphs over translation units, and the selection of the
//! modules that each linked binary needs.
//!
//! - `symbol`: symbols and the fuzzy matching policy between them.
//! - `unit`: the per-unit record of needed and supplied symbols.
//! - `graph`: the dependency graph, reachability and closure extraction.
//! - `laws`: properties that hold across the graph operations.
//! - `naming`: module names and output paths derived from file paths.
//! - `requirements`: pragmas and outside crates, merged and ordered.
//! - `assembly`: binary roles and the modules that each binary takes.

pub mod symbol;
pub mod unit;
pub mod graph;
pub mod laws;
pub mod naming;
pub mod requirements;
pub mod assembly;
