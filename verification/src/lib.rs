//! Que: a small Lisp front end with a static safety analyzer.
//!
//! The library reads Que source text into expressions, rewrites the surface
//! syntax into core forms, and runs an abstract interpretation over the
//! program to report accesses, divisions and arithmetic that it cannot prove
//! safe, together with loop and recursion termination findings.  It also reads
//! `que.toml` project configuration files.
#![allow(unused_imports)]
#![allow(dead_code)]
#![verifier::loop_isolation(false)]

pub mod text;
pub mod expr;
pub mod reader;
pub mod macros;
pub mod desugar;
pub mod interval;
pub mod facts;
pub mod state;
pub mod numeric;
pub mod guards;
pub mod bounds;
pub mod termination;
pub mod summaries;
pub mod analysis;
pub mod project;
pub mod program;
pub mod wasm_values;
pub mod heap;
pub mod fusion;
