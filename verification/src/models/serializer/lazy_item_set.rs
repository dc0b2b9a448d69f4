//! Sets of lazy items on disk: a chain of chunks of offsets.

use crate::models::cache_loader::{
    as_items, collection_slots, items_from, lemma_load_entries, load_collection,
    load_collection_entries, state_of, EntryKind, LoadState, NodeRegistry,
};
use crate::models::common::{LoadError, StoreError};
use crate::models::custom_buffered_writer::CustomBufferedWriter;
use crate::models::lazy_load::{LazyItem, LazyItemId, LazyItemSet};
use crate::models::node_arena::NodeArena;
use crate::models::serializer::assigned::{
    lemma_entries_assigned, resolved, targets_assigned,
};
use crate::models::registry_laws::lemma_load_entries_keeps;
use crate::models::serializer::CustomSerialize;
use crate::models::serializer::layout::{
    entries_layout, lemma_entries_layout, plain_entries, Layout,
};
use crate::models::serializer::write::{
    lemma_chunks_start, lemma_written_nothing, plain_chunk_entries, write_entries,
};
use crate::models::types::{FileOffset, MergedNodeView};
use std::collections::HashSet;
use vstd::prelude::*;

verus! {

impl CustomSerialize for LazyItemSet {
    type Loaded = Seq<(LazyItemId, LazyItem)>;

    open spec fn loaded(&self, arena: NodeArena) -> Seq<(LazyItemId, LazyItem)> {
        self@
    }

    open spec fn layout(&self, arena: NodeArena, pos: int) -> Layout {
        entries_layout(arena@.nodes, arena@.offsets, plain_entries(self@), true, pos).plain()
    }

    open spec fn load(bytes: Seq<u8>, st: LoadState, offset: u32, max_loads: u16) -> (
        Result<Seq<(LazyItemId, LazyItem)>, LoadError>,
        LoadState,
    ) {
        let r = load_collection(bytes, st, offset, EntryKind::Plain, max_loads);
        (
            match r.0 {
                Ok(entries) => Ok(as_items(entries)),
                Err(e) => Err(e),
            },
            r.1,
        )
    }

    /// Writes the set at the cursor and returns the offset of its first
    /// chunk. An empty set writes nothing and is the absent offset. After a
    /// write that succeeded, the offset known for each item is the one that
    /// was written for it, and each item with a node in the arena has one.
    fn serialize(&self, arena: &mut NodeArena, writer: &mut CustomBufferedWriter) -> (r: Result<
        u32,
        StoreError,
    >)
        ensures
            self@.len() == 0 ==> r == Ok::<u32, StoreError>(u32::MAX) && final(writer)@ == old(
                writer,
            )@,
            self@.len() > 0 ==> (r matches Ok(v) ==> v == old(writer)@.position() && v != u32::MAX),
            r is Ok ==> {
                let l = entries_layout(
                    old(arena)@.nodes,
                    old(arena)@.offsets,
                    plain_entries(self@),
                    true,
                    old(writer)@.position() as int,
                );
                &&& targets_assigned(l.targets, final(arena)@.offsets, plain_entries(self@))
                &&& resolved(final(arena)@.offsets, plain_entries(self@))
            },
    {
        let ghost nodes = arena@.nodes;
        let ghost table = arena@.offsets;
        let ghost pos = writer@.position() as int;
        proof {
            lemma_entries_layout(
                arena@.nodes,
                arena@.offsets,
                plain_entries(self@),
                true,
                writer@.position() as int,
            );
            lemma_written_nothing(writer@);
            if self@.len() > 0 {
                lemma_chunks_start(
                    arena@.nodes,
                    arena@.offsets,
                    plain_entries(self@),
                    true,
                    writer@.position() as int,
                );
            }
        }
        let entries = plain_chunk_entries(self);
        let r = write_entries(&arena.nodes, &mut arena.offsets, &entries, true, writer);
        proof {
            if r is Ok {
                lemma_entries_assigned(nodes, table, plain_entries(self@), true, pos);
            }
        }
        r
    }

    /// Loads the set written at `offset`. The absent offset is the empty
    /// set, and a slot that holds the absent offset is no item.
    fn deserialize(
        cache: &mut NodeRegistry,
        offset: u32,
        max_loads: u16,
        skipm: &mut HashSet<u32>,
    ) -> (r: Result<Self, LoadError>)
        ensures
            final(cache).arena.cells@ == old(cache).arena.cells@,
            offset == u32::MAX ==> {
                &&& r is Ok
                &&& r->Ok_0@.len() == 0
                &&& final(cache)@ == old(cache)@
                &&& final(skipm)@ == old(skipm)@
            },
    {
        proof {
            lemma_load_entries(
                cache@.bytes,
                state_of(cache@.arena, cache@.registry, skipm@),
                Seq::empty(),
                EntryKind::Plain,
                max_loads,
            );
        }
        match load_collection_entries(
            cache.reader.as_slice(),
            &mut cache.arena,
            &mut cache.registry,
            skipm,
            offset,
            EntryKind::Plain,
            max_loads,
        ) {
            Err(e) => Err(e),
            Ok(entries) => Ok(items_from(&entries)),
        }
    }

    proof fn lemma_load_keeps(bytes: Seq<u8>, st: LoadState, offset: u32, max_loads: u16) {
        if collection_slots(bytes, offset) is Ok {
            lemma_load_entries_keeps(
                bytes,
                st,
                collection_slots(bytes, offset).unwrap(),
                EntryKind::Plain,
                max_loads,
            );
        }
    }
}

} // verus!
