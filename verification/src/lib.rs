//! Resource-group storage layer: canonical codec for grouped resources,
//! a transactional group store, and per-member conflict tracking.

pub mod tag;
pub mod codec;
pub mod member_map;
pub mod tracker;
pub mod store;
pub mod natives;
