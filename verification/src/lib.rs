//! A minimal build-automation library: it turns a Makefile-style text into an
//! ordered, fault-aware execution plan.
//!
//! The pipeline is strictly sequential: the lexer turns preprocessed text into
//! tokens, the parser turns tokens into rule statements, the graph builder
//! folds the statements into a name-keyed dependency graph, and the scheduler
//! computes a cycle-safe topological order and drives the commands of each
//! target in declared order.  File discovery, process spawning and argument
//! handling live outside this crate; the library only receives plain values
//! (the makefile text, the directory listing, each command's exit status) and
//! hands plain values back.

pub mod error;
pub mod lexer;
pub mod node;
pub mod parser;
pub mod sched;
pub mod visitor;
