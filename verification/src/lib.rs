//! A read-optimized associative container ("hash index") with dynamic growth
//! and shrink: resizing allocates a new generation of the bucket table that
//! temporarily coexists with the old one, and entries migrate from the old
//! generation lazily, piggy-backed on ordinary operations.
//!
//! The modules, leaves first:
//! - [`hashing`]: the 64-bit full hash and 8-bit partial hash of a key,
//!   derived from a configurable hash builder plus an avalanche mixing step;
//! - [`policy`]: the resize-trigger arithmetic (growth and shrink rules);
//! - [`table`]: cells (buckets tagged with partial hashes) and one table
//!   generation;
//! - [`hashindex`]: the index itself, with the cell-reservation, locking and
//!   incremental-migration protocol;
//! - [`laws`]: proved statements about the index as a whole.

pub mod hashindex;
pub mod hashing;
pub mod laws;
pub mod policy;
pub mod table;

pub use hashindex::HashIndex;
pub use hashindex::Visitor;
pub use hashing::DefaultHashBuilder;
pub use hashing::IndexHasher;
pub use hashing::IndexKey;
pub use hashing::IndexValue;
