//! A binary Merkle vector over a reference-counted, content-addressed node
//! store, together with the packing rules that map fixed-length vectors of
//! integers, booleans and composite values onto it.
//!
//! A store ([`store`]) keeps every inner node under the hash of its two
//! children and counts the references to it; the trees are written against
//! its two traits, of which the store in memory is one implementation. A
//! raw tree ([`raw`]) reads and writes values at positions ([`index`])
//! below a root. A vector ([`vector`]) keeps a length over a raw tree and
//! pads it with zero leaves, with a fixed capacity or growing and shrinking
//! with its length. The codecs ([`fixed`], [`elemental_fixed`]) pack words
//! and bits into 32-byte leaves and build and read the trees of
//! fixed-length vectors.
//!
//! What the operations mean is stated over an abstract store ([`model`]),
//! walks in it ([`tree`]) and the book-keeping of handles ([`ledger`]); the
//! laws that relate several operations are proved in [`vector`] and
//! [`conservation`].

pub mod codec;
pub mod conservation;
pub mod elemental_fixed;
pub mod empty;
pub mod fixed;
pub mod index;
pub mod ledger;
pub mod model;
pub mod packing;
pub mod raw;
pub mod store;
pub mod tree;
pub mod tuple;
pub mod utils;
pub mod value;
pub mod vector;
pub mod words;

pub use elemental_fixed::{ElementalFixedVec, ElementalFixedVecRef};
pub use fixed::{FixedVec, FixedVecRef};
pub use index::Index;
pub use raw::Raw;
pub use store::{InMemoryBackend, ReadBackend, WriteBackend};
pub use tuple::MerkleTuple;
pub use value::{BackendError, Error, Value};
pub use vector::Vector;
pub use words::U256;
