//! Identifiers for the assets the owning store keeps.

use crate::key::MeshId;
use vstd::prelude::*;

verus! {

/// Names one loadable model of the owning store: a fixed asset or a
/// dynamically generated mesh keyed by its grid cell.
#[derive(Clone, Copy, PartialEq, Eq, Structural, Hash, Debug)]
pub enum ModelAsset {
    Cube,
    Room,
    Dynamic(u32),
    DynamicMesh(MeshId),
}

/// Component that points an entity of the owning store at a model asset.
#[derive(Clone, Copy, PartialEq, Eq, Structural, Debug)]
pub struct ModelReference {
    pub asset_reference: ModelAsset,
}

/// The kinds of bind group a render pipeline exposes.
#[derive(Clone, Copy, PartialEq, Eq, Structural, Hash, Debug)]
pub enum BindGroupType {
    Material,
}

/// Hands out the sequence numbers under which locally built meshes are
/// registered with the owning store.
pub struct ChunkBuilder {
    pub idx: u32,
}

impl ChunkBuilder {
    /// A builder whose first sequence number is 1.
    pub fn new() -> (b: ChunkBuilder)
        ensures
            b.idx == 1,
    {
        ChunkBuilder { idx: 1 }
    }

    /// Returns the current sequence number and advances to the next one.
    pub fn next_index(&mut self) -> (i: u32)
        requires
            old(self).idx < u32::MAX,
        ensures
            i == old(self).idx,
            final(self).idx == old(self).idx + 1,
    {
        let i = self.idx;
        self.idx = self.idx + 1;
        i
    }
}

} // verus!
