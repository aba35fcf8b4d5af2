//! Page-table values and operations: entry words, typed flag builders,
//! table handles, the mapper, and the TLB-flush tokens its mutations
//! return.

pub mod entry;
pub mod flags;
pub mod flush;
pub mod mapper;
pub mod table;
