//! Code-coverage counters and incremental block projection.
//!
//! A compilation host publishes, per function, a table of counter
//! expressions and the regions they cover (`model`); `evaluate` turns a
//! counter into a hit count. `projection` maps the basic blocks that changed
//! since the last session onto the downstream identifiers they touch: it
//! groups the blocks by function (`grouping`), asks the consumer's lookups,
//! hands every identifier on at most once (`dedup`) and streams the batches
//! into a channel (`sink`). `version` is the handshake that comes before any
//! of it.

pub mod coverageinfo;
pub mod dedup;
pub mod evaluate;
pub mod grouping;
pub mod ids;
pub mod model;
pub mod projection;
pub mod sink;
pub mod version;
