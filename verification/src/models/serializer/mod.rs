//! The binary format of the index file, the writer of it, and what writing
//! and loading have to do with each other.

pub mod assigned;
pub mod decode;
pub mod eager_lazy_item;
pub mod faithful;
pub mod graph;
pub mod layout;
pub mod lazy_item;
pub mod lazy_item_map;
pub mod lazy_item_set;
pub mod loadable;
pub mod node;
pub mod packed;
pub mod round_trip;
pub mod write;

use crate::models::cache_loader::{state_of, LoadState, NodeRegistry};
use crate::models::common::{LoadError, StoreError};
use crate::models::custom_buffered_writer::CustomBufferedWriter;
use crate::models::node_arena::NodeArena;
use crate::models::registry_laws::consistent;
use crate::models::serializer::layout::Layout;
use crate::models::serializer::write::serialized;
use crate::models::types::{FileOffset, MergedNodeView};
use std::collections::HashSet;
use vstd::prelude::*;

verus! {

/// A value that has a place in the index file.
pub trait CustomSerialize: Sized {
    /// A loaded value as contracts see it.
    type Loaded;

    /// The value as contracts see it once it is loaded into `arena`.
    spec fn loaded(&self, arena: NodeArena) -> Self::Loaded;

    /// What the value looks like when it is written at `pos`, with the
    /// nodes and the cells of `arena`.
    spec fn layout(&self, arena: NodeArena, pos: int) -> Layout;

    /// What a load at `offset` gives, and how it leaves the arena, the
    /// registry and the offsets in progress.
    spec fn load(bytes: Seq<u8>, st: LoadState, offset: u32, max_loads: u16) -> (
        Result<Self::Loaded, LoadError>,
        LoadState,
    );

    /// Writes the value at the cursor and returns the offset that refers
    /// to it. Nodes that are written on the way get their offsets.
    fn serialize(&self, arena: &mut NodeArena, writer: &mut CustomBufferedWriter) -> (r: Result<
        u32,
        StoreError,
    >)
        requires
            old(arena).wf(),
            old(writer)@.wf(),
        ensures
            final(arena).wf(),
            final(writer)@.wf(),
            final(arena)@.nodes == old(arena)@.nodes,
            final(arena).cells@ == old(arena).cells@,
            serialized(
                r,
                self.layout(*old(arena), old(writer)@.position() as int),
                old(writer)@,
                final(writer)@,
                final(arena)@.offsets,
            ),
    ;

    /// Loads the value at `offset` with `max_loads` nested loads left,
    /// while the offsets of `skipm` are being loaded further up.
    fn deserialize(
        cache: &mut NodeRegistry,
        offset: u32,
        max_loads: u16,
        skipm: &mut HashSet<u32>,
    ) -> (r: Result<Self, LoadError>)
        requires
            old(cache).wf(),
        ensures
            final(cache).wf(),
            final(cache)@.bytes == old(cache)@.bytes,
            ({
                let spec = Self::load(
                    old(cache)@.bytes,
                    state_of(old(cache)@.arena, old(cache)@.registry, old(skipm)@),
                    offset,
                    max_loads,
                );
                match spec.0 {
                    Ok(v) => {
                        &&& r is Ok
                        &&& r->Ok_0.loaded(final(cache).arena) == v
                        &&& final(cache)@ == old(cache)@.after(spec.1)
                        &&& final(skipm)@ == spec.1.skip
                    },
                    Err(e) => r matches Err(x) && x == e,
                }
            }),
    ;

    /// A load keeps a consistent registry consistent.
    proof fn lemma_load_keeps(bytes: Seq<u8>, st: LoadState, offset: u32, max_loads: u16)
        requires
            consistent(bytes, st),
            Self::load(bytes, st, offset, max_loads).1.nodes.len() <= usize::MAX,
        ensures
            consistent(bytes, Self::load(bytes, st, offset, max_loads).1),
    ;
}

} // verus!
