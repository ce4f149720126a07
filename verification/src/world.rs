//! Minimal holders for the higher-level world abstraction that consumes
//! decoded documents. Region and chunk indexing are not part of the codec
//! and are not modelled here; a world simply owns its top-level metadata
//! document, with strict exclusive parent-to-child ownership.

use vstd::prelude::*;

use crate::value::NbtValue;

verus! {

/// A world's top-level metadata: the decoded root document of its metadata
/// file.
pub struct LevelDat {
    pub name: String,
    pub data: NbtValue,
}

/// A chunk's decoded data tree.
pub struct Chunk {
    pub data: NbtValue,
}

/// A world on disk: where it lives, and its decoded metadata.
pub struct World {
    pub path: String,
    pub level_dat: LevelDat,
}

impl World {
    /// The world's top-level metadata document.
    pub fn get_level_dat(&self) -> (r: &LevelDat)
        ensures
            *r == self.level_dat,
    {
        &self.level_dat
    }
}

} // verus!
