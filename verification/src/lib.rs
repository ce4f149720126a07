//! A verified codec for a self-describing, tag-prefixed binary tree format:
//! named binary tag documents. A document is a root name together with a
//! value tree of scalars, fixed-width arrays, homogeneous lists and nested
//! string-keyed compounds. The crate decodes a byte stream into such a tree,
//! encodes a tree back into the identical byte stream, and optionally wraps
//! either direction in gzip stream compression.
#![verifier::loop_isolation(false)]

pub mod dec;
pub mod enc;
pub mod error;
pub mod gzip;
pub mod laws;
pub mod value;
pub mod wire;
pub mod world;

pub use error::Error;
pub use value::{NbtList, NbtValue};
pub use world::{Chunk, LevelDat, World};
