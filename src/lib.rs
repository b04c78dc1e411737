//! A small threaded discussion board: threads and replies kept in an ordered
//! key-value store, with a verified key scheme, record codec and pagination.
pub mod codec;
pub mod keys;
pub mod paging;
pub mod store;
pub mod repo;
pub mod model;
