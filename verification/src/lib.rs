//! Chunk-graph construction engine for a module bundler.
//!
//! Given a set of entry modules and a typed reference graph between modules,
//! this library decides which modules are bundled together into one chunk
//! group, which are split into separate lazily-loaded groups, which are forced
//! into isolated groups, and which are left unresolved as external references.
//! It also detects strongly-connected import cycles among script modules so
//! that mutually dependent modules can be scoped as one atomic unit.

use vstd::prelude::*;

pub mod available_assets;
pub mod code_gen;
pub mod diagnostics;
pub mod chunking;
pub mod esm_scope;
pub mod graph;
pub mod primitives;
pub mod scc_graph;
pub mod text;
pub mod traversal;

verus! {

/// How a reference's targets are grouped relative to the referencing module.
#[derive(Clone, Copy, PartialEq, Eq, Structural, Debug)]
pub enum ChunkingType {
    /// Targets are included in the same chunk group as the referencer.
    Parallel,
    /// Targets are placed, or included in parallel, in the same chunk group.
    PlacedOrParallel,
    /// Targets are placed in the same chunk group.
    Placed,
    /// Targets form their own forced-separate chunk group.
    IsolatedParallel,
    /// Targets are loaded as a separate, lazily-loaded chunk group.
    Async,
}

impl ChunkingType {
    /// The chunking types that keep a target in the same chunk group as the
    /// referencer; the chunkable closure follows exactly these references.
    pub open spec fn is_inline(self) -> bool {
        self is Parallel || self is PlacedOrParallel || self is Placed
    }
}

/// The failures this engine can surface; all of them abort the enclosing
/// computation and propagate to the caller.
#[derive(Clone, Copy, PartialEq, Eq, Structural, Debug)]
pub enum Error {
    /// A reference declared an inline chunking type, but a target module does
    /// not support chunk-item materialization.
    NotChunkable { module: usize },
    /// A module inside a computed scope's edge set is missing from the SCC
    /// map; an internal invariant violation, never user-facing.
    MissingScc { placeable: u64 },
}

} // verus!
