//! Counts how often flagged words occur in the commit messages of a
//! repository, per author and for the repository as a whole.
//!
//! The crate is organised around three pieces: tokenization and word-list
//! lookup ([`words`]), the per-author ledger ([`author`]) and the
//! repository-wide aggregate ([`repo`]).

pub mod author;
pub mod repo;
pub mod words;
