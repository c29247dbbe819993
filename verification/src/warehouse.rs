//! The warehouse: a cubic store of product entries with indexes by name,
//! identifier and expiry date, a map of free places, and allocation
//! strategies that choose where a new product goes.

pub mod coords;
pub mod coords_order;
pub mod range_set;
pub mod free_map;
pub mod product;
pub mod storage;
pub mod allocators;
pub mod prompts;
