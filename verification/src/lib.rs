//! Statement-level tree shaking for ECMAScript modules.
//!
//! Each module owns a set of demanded export names (`module::UsedExports`) and a
//! graph of its top-level statements (`statement_graph::StatementGraph`). From the
//! demanded names the tracker resolves which local identifiers are live and on
//! which statements they live, and the graph computes the transitive closure of
//! statements that must be kept so that those identifiers, and every statement
//! with its own side effects, survive in the emitted output.

pub mod ident;
pub mod module;
pub mod runtime_suffix;
pub mod statement_graph;
