//! Normalises basic-block execution traces against a set of valid block
//! addresses: entries outside the set are discarded and the identifiers of
//! the remaining entries are compacted.

pub mod batch;
pub mod entry;
pub mod lines;
pub mod number;
pub mod output;
pub mod reference;
pub mod trace;
