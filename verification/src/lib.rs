//! Range-indexed ownership storage for a plasma-style chain.
//!
//! Ownership is tracked over a numeric keyspace as a set of pairwise disjoint
//! half-open intervals, each carrying an opaque payload.  The crate provides
//! an ordered byte-keyed store with namespaces, a range store on top of it,
//! and the byte-exact encoding of state objects.
//!
//! - [`key`] and [`endian`]: byte-string keys, their order, and the keys of numbers.
//! - [`kvs`]: the contract of an ordered store; [`memory`] and [`faulty`]: two backends.
//! - [`bucket`]: namespaced views of a store.
//! - [`range`], [`range_algebra`]: ranges and what the operations do to a set of them.
//! - [`rangestore`]: the contract of a range store; [`rangedb`]: the range store over a bucket.
//! - [`abi`], [`state_object`]: the encoding of state objects.
//! - [`error`], [`abi_error`], [`ovm_error`]: the errors of the layers.
pub mod abi;
pub mod abi_error;
pub mod bucket;
pub mod endian;
pub mod error;
pub mod faulty;
pub mod key;
pub mod kvs;
pub mod memory;
pub mod ovm_error;
pub mod range;
pub mod range_algebra;
pub mod rangedb;
pub mod rangestore;
pub mod state_object;
