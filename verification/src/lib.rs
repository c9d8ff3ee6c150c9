//! A compiler front-end and program synthesizer for a small declarative
//! language describing data pipelines.
//!
//! Source text declares typed universes of data, abstract behaviors,
//! concrete functions and named flows.  From a single flow the synthesizer
//! enumerates every well-typed concrete pipeline that satisfies the flow's
//! constraints, materializing each as a directed acyclic execution graph.
//!
//! The crate is organized leaves-first:
//! constraint algebra (`ast`, `constraints`), symbol table (`symbols`,
//! `semantics`), execution graphs (`ir`), and the synthesis engine with its
//! dispatcher (`synthesis`).

pub mod ast;
pub mod constraints;
pub mod ir;
pub mod symbols;
pub mod semantics;
pub mod synthesis;
