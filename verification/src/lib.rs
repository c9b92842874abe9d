//! A volatile, in-process hash-indexed table mapping integer keys to small
//! fixed-shape records: a fixed power-of-two array of buckets, each holding a
//! singly linked collision chain. Insertion prepends to the key's bucket,
//! lookup returns the first match in that bucket, removal splices out the
//! first match, and a scan walks every bucket head to tail.

pub mod laws;
pub mod relation;
pub mod row;

pub use relation::Relation;
pub use row::Data;
pub use row::Row;
