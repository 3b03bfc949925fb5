//! A small in-memory key-value server core: a wire-protocol tokenizer, a
//! parser for homogeneous nested arrays, a storage contract with a
//! concurrent in-memory backend, and the decisions of the accept loop.
pub mod lexer;
pub mod parser;
pub mod store;
pub mod reactor;
pub mod config;
