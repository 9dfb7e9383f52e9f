//! A ranked, time-decayed store of visited directories, and the search that
//! answers "which directory did I mean?".
//!
//! The store is a text file with one entry per line: a path, a rank that
//! grows with every visit and decays as the table fills, and the time of
//! the last visit. A search selects entries by a regular expression, scores
//! them by rank, by recency or by both, prefers the directory that all
//! matches share, and orders the result.
//!
//! Ranks and scores are binary32 numbers. This library holds them as bit
//! patterns ([`single::Single`]) and decides on them exactly: whether one is
//! finite, how two compare. It does no floating-point arithmetic. Where a
//! rank is raised, decayed, summed, read or written, the caller computes and
//! hands in the result, and the contracts say what is done with it. Neither
//! does the library touch files: it turns bytes into a table and a table into
//! bytes.
//!
//! - [`text`]: splitting and joining byte strings
//! - [`single`]: binary32 bit patterns, finiteness and order
//! - [`clock`]: the present time, and ages
//! - [`codec`]: one entry as one line
//! - [`store`]: a table from the bytes of a store, and back
//! - [`persist`]: what is written is read back
//! - [`table`]: visits, aging and pruning
//! - [`paths`]: path components and the directory that paths share
//! - [`score`]: scoring policies and the order of results
//! - [`search`]: selection by pattern, boost and ranking
//! - [`command`]: what a command line asks for
//! - [`profile`]: hooking into a shell's start-up file

pub mod clock;
pub mod codec;
pub mod command;
pub mod paths;
pub mod persist;
pub mod profile;
pub mod score;
pub mod search;
pub mod single;
pub mod store;
pub mod table;
pub mod text;
