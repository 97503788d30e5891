//! A key-value store kept in two files, in two variants.
//!
//! The data file holds the values and nothing else; the index file holds one line per
//! record that says where a value lies; the index in memory is rebuilt from the index file
//! when an engine is opened. [`KvEngine`] only ever appends and keeps its index ordered by
//! key; [`FixedKvEngine`] gives each key a slot, overwrites in place and closes the gap that
//! a delete leaves.
//!
//! An engine works on the content of its two files and performs no I/O. It is opened on
//! what the files hold, and every operation that changes a file says from which position
//! on: the caller writes that much to the file. After every operation the two files and
//! the index in memory agree, so an engine opened again on the same files stands for the
//! same store.

pub mod bytes;
pub mod decimal;
pub mod engine;
pub mod error;
pub mod file;
pub mod fixed;
pub mod frame;
pub mod ordered;
pub mod peer;
pub mod record;
pub mod store;

pub use engine::KvEngine;
pub use fixed::FixedKvEngine;
pub use record::KeyIndex;
