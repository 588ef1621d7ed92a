//! A compact, read-only string dictionary for crossword-style lookups.
//!
//! A trie with shared suffix nodes is serialized by an encoder into a
//! self-describing base-64 bit stream.  This crate decodes that stream and
//! answers membership, wildcard and prefix queries by bit-level traversal of
//! the packed form, without ever materializing trie nodes.

pub mod base64;
pub mod constants;
pub mod bitbuf;
pub mod codec;
pub mod packed;
pub mod word_bank;
