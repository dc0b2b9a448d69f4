//! Neighbours on disk: the similarity, then the offset of the node.

use crate::models::cache_loader::{
    as_neighbors, collection_slots, lemma_load_entries, load_collection, load_collection_entries,
    load_entry, load_one_entry, neighbors_from, state_of, EntryKind, LoadState, NodeRegistry,
};
use crate::models::common::{LoadError, StoreError};
use crate::models::custom_buffered_writer::CustomBufferedWriter;
use crate::models::endian::{le32, lemma_le_round_trip, u32_to_le};
use crate::models::lazy_load::{EagerLazyItem, EagerLazyItemSet, LazyItemId};
use crate::models::node_arena::NodeArena;
use crate::models::serializer::assigned::{
    lemma_entries_assigned, resolved, targets_assigned,
};
use crate::models::registry_laws::{lemma_load_entries_keeps, lemma_load_entry_keeps};
use crate::models::serializer::CustomSerialize;
use crate::models::serializer::layout::{
    eager_entries, entries_layout, entry_layout, lemma_entries_layout, lemma_entry_layout,
    EntryView, Layout,
};
use crate::models::serializer::write::{
    entry_views, lemma_chunks_start, lemma_written_nothing, write_entries, write_entry, ChunkEntry,
};
use crate::models::types::{FileOffset, MergedNodeView};
use std::collections::HashSet;
use vstd::prelude::*;

verus! {

impl CustomSerialize for EagerLazyItem {
    type Loaded = EagerLazyItem;

    open spec fn loaded(&self, arena: NodeArena) -> EagerLazyItem {
        *self
    }

    open spec fn layout(&self, arena: NodeArena, pos: int) -> Layout {
        entry_layout(
            arena@.nodes,
            arena@.offsets,
            EntryView { prefix: le32(self.0), item: self.1 },
            false,
            pos,
        )
    }

    open spec fn load(bytes: Seq<u8>, st: LoadState, offset: u32, max_loads: u16) -> (
        Result<EagerLazyItem, LoadError>,
        LoadState,
    ) {
        let r = load_entry(bytes, st, offset, EntryKind::Eager, max_loads);
        (
            match r.0 {
                Ok(entry) => Ok(EagerLazyItem(entry.similarity, entry.item)),
                Err(e) => Err(e),
            },
            r.1,
        )
    }

    /// Writes the similarity, the offset of the node and, where it is not
    /// written yet, the node. Returns the offset of the similarity.
    fn serialize(&self, arena: &mut NodeArena, writer: &mut CustomBufferedWriter) -> (r: Result<
        u32,
        StoreError,
    >)
        ensures
            r matches Ok(v) ==> v == old(writer)@.position() && v != u32::MAX,
    {
        proof {
            lemma_le_round_trip();
            lemma_entry_layout(
                arena@.nodes,
                arena@.offsets,
                EntryView { prefix: le32(self.0), item: self.1 },
                false,
                writer@.position() as int,
            );
        }
        let entry = ChunkEntry { prefix: u32_to_le(self.0), item: self.1 };
        write_entry(&arena.nodes, &mut arena.offsets, &entry, false, writer)
    }

    /// Loads the neighbour written at `offset`.
    fn deserialize(
        cache: &mut NodeRegistry,
        offset: u32,
        max_loads: u16,
        skipm: &mut HashSet<u32>,
    ) -> (r: Result<Self, LoadError>)
        ensures
            final(cache).arena.cells@ == old(cache).arena.cells@,
    {
        match load_one_entry(
            cache.reader.as_slice(),
            &mut cache.arena,
            &mut cache.registry,
            skipm,
            offset,
            EntryKind::Eager,
            max_loads,
        ) {
            Err(e) => Err(e),
            Ok(entry) => Ok(EagerLazyItem(entry.similarity, entry.item)),
        }
    }

    proof fn lemma_load_keeps(bytes: Seq<u8>, st: LoadState, offset: u32, max_loads: u16) {
        lemma_load_entry_keeps(bytes, st, offset, EntryKind::Eager, max_loads);
    }
}

impl CustomSerialize for EagerLazyItemSet {
    type Loaded = Seq<(LazyItemId, EagerLazyItem)>;

    open spec fn loaded(&self, arena: NodeArena) -> Seq<(LazyItemId, EagerLazyItem)> {
        self@
    }

    open spec fn layout(&self, arena: NodeArena, pos: int) -> Layout {
        entries_layout(arena@.nodes, arena@.offsets, eager_entries(self@), false, pos).plain()
    }

    open spec fn load(bytes: Seq<u8>, st: LoadState, offset: u32, max_loads: u16) -> (
        Result<Seq<(LazyItemId, EagerLazyItem)>, LoadError>,
        LoadState,
    ) {
        let r = load_collection(bytes, st, offset, EntryKind::Eager, max_loads);
        (
            match r.0 {
                Ok(entries) => Ok(as_neighbors(entries)),
                Err(e) => Err(e),
            },
            r.1,
        )
    }

    /// Writes the set at the cursor and returns the offset of its first
    /// chunk. An empty set writes nothing and is the absent offset. After a
    /// write that succeeded, the offset known for each item is the one that
    /// was written for it, and each item with a node in the arena has one.
    fn serialize(&self, arena: &mut NodeArena, writer: &mut CustomBufferedWriter) -> (r: Result<
        u32,
        StoreError,
    >)
        ensures
            self@.len() == 0 ==> r == Ok::<u32, StoreError>(u32::MAX) && final(writer)@ == old(
                writer,
            )@,
            self@.len() > 0 ==> (r matches Ok(v) ==> v == old(writer)@.position() && v != u32::MAX),
            r is Ok ==> {
                let l = entries_layout(
                    old(arena)@.nodes,
                    old(arena)@.offsets,
                    eager_entries(self@),
                    false,
                    old(writer)@.position() as int,
                );
                &&& targets_assigned(l.targets, final(arena)@.offsets, eager_entries(self@))
                &&& resolved(final(arena)@.offsets, eager_entries(self@))
            },
    {
        let ghost nodes = arena@.nodes;
        let ghost table = arena@.offsets;
        let ghost pos = writer@.position() as int;
        proof {
            lemma_entries_layout(
                arena@.nodes,
                arena@.offsets,
                eager_entries(self@),
                false,
                writer@.position() as int,
            );
            lemma_written_nothing(writer@);
            if self@.len() > 0 {
                lemma_chunks_start(
                    arena@.nodes,
                    arena@.offsets,
                    eager_entries(self@),
                    false,
                    writer@.position() as int,
                );
            }
        }
        let entries = set_chunk_entries(self);
        let r = write_entries(&arena.nodes, &mut arena.offsets, &entries, false, writer);
        proof {
            if r is Ok {
                lemma_entries_assigned(nodes, table, eager_entries(self@), false, pos);
            }
        }
        r
    }

    /// Loads the set written at `offset`. The absent offset is the empty
    /// set.
    fn deserialize(
        cache: &mut NodeRegistry,
        offset: u32,
        max_loads: u16,
        skipm: &mut HashSet<u32>,
    ) -> (r: Result<Self, LoadError>)
        ensures
            final(cache).arena.cells@ == old(cache).arena.cells@,
            offset == u32::MAX ==> {
                &&& r is Ok
                &&& r->Ok_0@.len() == 0
                &&& final(cache)@ == old(cache)@
                &&& final(skipm)@ == old(skipm)@
            },
    {
        proof {
            lemma_load_entries(
                cache@.bytes,
                state_of(cache@.arena, cache@.registry, skipm@),
                Seq::empty(),
                EntryKind::Eager,
                max_loads,
            );
        }
        match load_collection_entries(
            cache.reader.as_slice(),
            &mut cache.arena,
            &mut cache.registry,
            skipm,
            offset,
            EntryKind::Eager,
            max_loads,
        ) {
            Err(e) => Err(e),
            Ok(entries) => Ok(neighbors_from(&entries)),
        }
    }

    proof fn lemma_load_keeps(bytes: Seq<u8>, st: LoadState, offset: u32, max_loads: u16) {
        if collection_slots(bytes, offset) is Ok {
            lemma_load_entries_keeps(
                bytes,
                st,
                collection_slots(bytes, offset).unwrap(),
                EntryKind::Eager,
                max_loads,
            );
        }
    }
}

/// The items of `set` as entries: each similarity in front of its item.
pub fn set_chunk_entries(set: &EagerLazyItemSet) -> (entries: Vec<ChunkEntry>)
    ensures
        entry_views(entries@) == eager_entries(set@),
{
    let n: usize = set.items.entries.len();
    let mut entries: Vec<ChunkEntry> = Vec::new();
    let mut i: usize = 0;
    while i < n
        invariant
            i <= n,
            n == set@.len(),
            entry_views(entries@) == eager_entries(set@.subrange(0, i as int)),
        decreases n - i,
    {
        let pair = set.items.entries[i].1;
        let entry = ChunkEntry { prefix: u32_to_le(pair.0), item: pair.1 };
        assert(entry@ == eager_entries(set@)[i as int]);
        let ghost before = entry_views(entries@);
        entries.push(entry);
        i = i + 1;
        assert(entry_views(entries@) =~= before.push(entry@));
        assert(eager_entries(set@.subrange(0, i as int)) =~= before.push(entry@));
    }
    assert(set@.subrange(0, n as int) =~= set@);
    entries
}

} // verus!
