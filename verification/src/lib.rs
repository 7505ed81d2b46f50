//! A string-keyed associative container that grows by linear hashing:
//! the bucket array is extended one bucket at a time, each growth step
//! redistributing a single bucket, so no insertion ever rehashes the
//! whole table.

pub mod arith;
pub mod hash;
pub mod laws;
pub mod strutil;

pub use hash::bit_string;
pub use hash::NameVal;
