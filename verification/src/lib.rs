//! A verified core for a process-memory scanner: parsing an OS-exposed,
//! line-oriented memory-map description into typed region descriptors, and
//! searching region contents for an exact byte pattern, tolerant of regions
//! whose bytes could not be read.

pub mod parser;
pub mod process;
pub mod region;
pub mod scanner;

pub use process::Proc;
pub use region::MemRegion;
pub use region::MemRegionErr;
pub use scanner::SearchResult;
