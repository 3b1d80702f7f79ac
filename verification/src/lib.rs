//! Regurgitate: reads datasets described by a local context, keeps their
//! records with Blot checksums, and derives the CSVW metadata of their tables.
pub mod cells;
pub mod context;
pub mod dataset;
pub mod digest;
pub mod fetcher;
pub mod link_header;
pub mod order;
pub mod remote;
pub mod storage;
pub mod table;
pub mod text;

pub use dataset::{Record, Records, Source, Storage};
pub use remote::Remote;
