//! Verified B+ trees.
pub mod balance;
pub mod btree;
pub mod bytes;
pub mod bytetree;
pub mod cbtre;
pub mod clock;
pub mod codec;
pub mod cursor;
pub mod entries;
pub mod file_medium;
pub mod format;
pub mod frames;
pub mod key;
pub mod laws;
pub mod lean;
pub mod limits;
pub mod medium;
pub mod moves;
pub mod node;
pub mod normal_btree;
pub mod order;
pub mod ordered;
pub mod outline;
pub mod page;
pub mod paged;
pub mod paged_moves;
pub mod plain;
pub mod pool;
pub mod shape;
pub mod store;
pub mod tree;
pub mod window;
