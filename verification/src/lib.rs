//! The split-check worker of a range-partitioned, replicated key-value
//! store: the background component that decides whether a region has grown
//! past its configured size or straddles a table boundary, and at which
//! existing key it should be divided.
//!
//! The pieces, leaves first: a lexicographic order on byte keys (`lex`),
//! the physical key prefix (`keys`), the memcomparable key codec (`codec`),
//! the modelled multi-family engine (`engine`), the streaming k-way merge
//! (`merge`), the cheap span probe (`probe`), the two split policies
//! (`size_checker`, `table_checker`), the control-loop messages and channel
//! (`msgs`), and the per-task orchestrator (`runner`).

pub mod codec;
pub mod engine;
pub mod keys;
pub mod lex;
pub mod merge;
pub mod msgs;
pub mod probe;
pub mod runner;
pub mod size_checker;
pub mod table_checker;
