//! An associative container from `u32` keys to `u32` values, kept in one
//! array of slots with open addressing and Robin Hood displacement.

pub mod hasher;
pub mod laws;
pub mod slots;
pub mod table;

pub use hasher::hash_key;
pub use slots::{Entry, Slot};
pub use table::{CreateError, InsertError, InsertOutcome, Table};
