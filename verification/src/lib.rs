//! mathom: the verified core of a disk space analyzer — the scan data
//! model, the arena tree with streaming aggregation, search and
//! statistics over it, and the NTFS on-disk format parsers.

pub mod text;
pub mod entry;
pub mod interner;
pub mod sums;
pub mod tree;
pub mod ntfs;
pub mod category;
pub mod protected;
pub mod session;
pub mod rank;
pub mod stats;
pub mod search;
pub mod export;
pub mod walker;
pub mod scanner;
pub mod treemap;
pub mod oracle;
pub mod bend;
pub mod views;
