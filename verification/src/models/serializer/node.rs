//! Nodes on disk: a record of 27 bytes and what it refers to.

use crate::models::cache_loader::{load_node, load_node_record, LoadState, NodeRegistry};
use crate::models::common::{LoadError, StoreError};
use crate::models::custom_buffered_writer::CustomBufferedWriter;
use crate::models::node_arena::NodeArena;
use crate::models::registry_laws::lemma_load_node_keeps;
use crate::models::serializer::CustomSerialize;
use crate::models::serializer::layout::{lemma_node_layout, node_layout, Layout};
use crate::models::serializer::write::write_node;
use crate::models::types::{FileOffset, MergedNode, MergedNodeView};
use std::collections::HashSet;
use vstd::prelude::*;

verus! {

impl CustomSerialize for MergedNode {
    type Loaded = MergedNodeView;

    open spec fn loaded(&self, arena: NodeArena) -> MergedNodeView {
        self@
    }

    open spec fn layout(&self, arena: NodeArena, pos: int) -> Layout {
        node_layout(arena@.nodes, arena@.offsets, self@, pos)
    }

    open spec fn load(bytes: Seq<u8>, st: LoadState, offset: u32, max_loads: u16) -> (
        Result<MergedNodeView, LoadError>,
        LoadState,
    ) {
        load_node(bytes, st, offset, max_loads)
    }

    /// Writes the node at the cursor and returns the offset of its record,
    /// which is never the absent offset.
    fn serialize(&self, arena: &mut NodeArena, writer: &mut CustomBufferedWriter) -> (r: Result<
        u32,
        StoreError,
    >)
        ensures
            r matches Ok(v) ==> v == old(writer)@.position() && v != u32::MAX,
    {
        proof {
            lemma_node_layout(arena@.nodes, arena@.offsets, self@, writer@.position() as int);
        }
        write_node(&arena.nodes, &mut arena.offsets, self, writer)
    }

    /// Loads the node whose record lies at `offset`. The node is handed
    /// out and not registered; what it refers to is.
    fn deserialize(
        cache: &mut NodeRegistry,
        offset: u32,
        max_loads: u16,
        skipm: &mut HashSet<u32>,
    ) -> (r: Result<Self, LoadError>)
        ensures
            final(cache).arena.cells@ == old(cache).arena.cells@,
    {
        load_node_record(
            cache.reader.as_slice(),
            &mut cache.arena,
            &mut cache.registry,
            skipm,
            offset,
            max_loads,
        )
    }

    proof fn lemma_load_keeps(bytes: Seq<u8>, st: LoadState, offset: u32, max_loads: u16) {
        lemma_load_node_keeps(bytes, st, offset, max_loads);
    }
}

} // verus!
