//! Static reachability analysis over a language-agnostic symbol/call graph.
//!
//! The crate takes a table of declared symbols and the raw call sites a
//! front-end recorded, resolves each call site into concrete graph edges
//! (with explicit policies for dynamic dispatch, callables passed as values,
//! and macro-synthesized initializers), classifies entry points, computes the
//! reachable closure, and reports the remaining symbols as dead code.

// The analysis engine.
pub mod callgraph;
pub mod pipeline;
pub mod reach;
pub mod report;
pub mod roots;
pub mod symbols;

// A small sample codebase that the test suite runs the analysis against.
pub mod flow;
pub mod models;
pub mod utils;

use vstd::prelude::*;

verus! {

/// The errors that halt an analysis run, plus the duplicate-registration
/// defect reported by the symbol table.
#[derive(Clone, Copy, PartialEq, Eq, Structural, Debug)]
pub enum AnalysisError {
    /// The same symbol identity was registered twice.
    DuplicateSymbol { id: u64 },
    /// No entry point qualified as a root: the analysis cannot start.
    NoEntryPoint,
    /// An edge references a symbol absent from the table.
    GraphIntegrity { source: u64, target: u64 },
}

} // verus!
