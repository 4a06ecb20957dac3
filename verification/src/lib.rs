//! A stack-based scripting virtual machine with a reflective type registry
//! and a five-kind managed-value model.
//!
//! Every runtime value carries one of five ownership roles: owned, immutable
//! reference, mutable reference, lazy (non-borrowing shared access), and box
//! (reference-counted shared ownership). Scripts compose primitive operations
//! that push, borrow, move, destructure and re-structure such values, and call
//! host functions registered in the registry.
//!
//! This crate holds the core: the value model, the registry, the evaluation
//! context and the operation evaluator. The ambient library a host usually
//! offers scripts — collections, options, events, closures, promises,
//! channels, threads — is the host's to provide, through registered host
//! functions and its own threads; the embedding demo shows the pattern.

pub mod abort;
pub mod context;
pub mod eval;
pub mod expr;
pub mod fields;
pub mod install;
pub mod kind;
pub mod laws;
pub mod literal;
pub mod lower;
pub mod registry;
pub mod script;
pub mod structure;
pub mod value;

pub use kind::{AnkhaValueKind, Visibility};
pub use literal::AnkhaLiteral;
