//! The Ouro toolchain: tokenizer, parsers, name resolution and source maps.
pub mod analysis;
pub mod index;
pub mod intern;
pub mod keywords;
pub mod span;
pub mod tokenize;
pub mod parse_node;
pub mod parse;
pub mod parse_types;
pub mod resolve;
pub mod pprint;
pub mod sea;
pub mod text;
pub mod token_sum_tree;
