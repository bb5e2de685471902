//! The Sea front end: a parser that records subtree sizes, a two-pass name resolver,
//! and the start of an evaluator.
pub mod node;
pub mod parser;
pub mod pprint;
pub mod resolver;
pub mod sema;
pub mod span;
