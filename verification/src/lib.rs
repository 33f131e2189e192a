//! Finds files that are byte-for-byte duplicates across directory trees.
//!
//! The crate holds the decisions of a duplicate scan and proves them: which
//! roots are scanned, whether a tree is large enough for a worker pool, how the
//! pool hands out directories and detects that it has run dry, and how hashed
//! files are grouped. Reading directories and files is left to the caller, who
//! feeds what was read to the state machines defined here.

pub mod agreement;
pub mod digest;
pub mod entry;
pub mod error;
pub mod index;
pub mod pool;
pub mod pool_run;
pub mod report;
pub mod roots;
pub mod session;
pub mod surveyor;
pub mod tree;
pub mod walker;
