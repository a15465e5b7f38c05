//! The shared domain: handles that threads pass to each other.
//!
//! - [`word`]: the count of handles to one allocation and its `buffered`
//!   flag, packed into one word, and the steps that change them together.
//! - [`count`]: that word in an atomic cell.
//! - [`handle`]: the handle, which shares such a count with the other
//!   handles to its allocation.
//! - [`table`]: the heap of the domain and how it counts the handles held
//!   outside of it.
//! - [`shared`]: the table behind a lock.

pub mod count;
pub mod handle;
pub mod shared;
pub mod table;
pub mod word;
