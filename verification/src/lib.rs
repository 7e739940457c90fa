//! Incremental build engine for a small functional language.
//!
//! The engine turns a set of source inputs into generated backend files
//! through a stack of memoized queries (`source_file`, `sources`,
//! `module_ast`, `dependencies`, `dependents`, `analyzed_module`, code
//! generation).  Assigning an input advances a revision counter; parsed
//! modules and dependency lists are then revalidated against what they
//! read before being reused, analyses are recomputed on demand, and a
//! recomputation that yields an unchanged value keeps its old change
//! stamp, so consumers can tell a real change from a revalidated one.

pub mod bytes;
pub mod db;
pub mod error;
pub mod parse;
pub mod project;
pub mod graph;
pub mod incremental;
pub mod laws;
pub mod typ;
pub mod values;
