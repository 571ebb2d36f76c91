//! Connects a sequence of blocks: every spending input is resolved to the
//! output it spends, using a running cache of unspent outputs.
pub mod model;
pub mod cache;
pub mod connect;
pub mod disk;
pub mod reorder;
pub mod chain;
