//! Lazy items on disk: the offset of the node.

use crate::models::cache_loader::{
    lemma_load_lazy, load_lazy, load_lazy_item, state_of, LoadState, NodeRegistry,
};
use crate::models::common::{LoadError, StoreError};
use crate::models::custom_buffered_writer::CustomBufferedWriter;
use crate::models::lazy_load::{CellPlace, LazyItem, LazyItemRef};
use crate::models::node_arena::{lazy_offset, NodeArena};
use crate::models::serializer::assigned::{lemma_lazy_assigned, offset_or_absent};
use crate::models::registry_laws::lemma_load_lazy_keeps;
use crate::models::serializer::CustomSerialize;
use crate::models::serializer::layout::{lazy_layout, lemma_lazy_layout, Layout};
use crate::models::serializer::write::{lemma_written_nothing, write_lazy_item};
use crate::models::types::{FileOffset, MergedNodeView};
use std::collections::HashSet;
use vstd::prelude::*;

verus! {

impl CustomSerialize for LazyItem {
    type Loaded = LazyItem;

    open spec fn loaded(&self, arena: NodeArena) -> LazyItem {
        *self
    }

    open spec fn layout(&self, arena: NodeArena, pos: int) -> Layout {
        lazy_layout(arena@.nodes, arena@.offsets, *self, pos)
    }

    open spec fn load(bytes: Seq<u8>, st: LoadState, offset: u32, max_loads: u16) -> (
        Result<LazyItem, LoadError>,
        LoadState,
    ) {
        load_lazy(bytes, st, offset, max_loads)
    }

    /// Writes the node of the item at the cursor, unless the node has an
    /// offset already, and returns the offset of the node. An invalid item
    /// writes nothing and is the absent offset. What is returned is the
    /// offset known for the item from then on.
    fn serialize(&self, arena: &mut NodeArena, writer: &mut CustomBufferedWriter) -> (r: Result<
        u32,
        StoreError,
    >)
        ensures
            *self is Invalid ==> r == Ok::<u32, StoreError>(u32::MAX) && final(writer)@ == old(
                writer,
            )@,
            r matches Ok(v) ==> v == offset_or_absent(lazy_offset(final(arena)@.offsets, *self)),
    {
        let ghost nodes = arena@.nodes;
        let ghost table = arena@.offsets;
        let ghost pos = writer@.position() as int;
        proof {
            lemma_lazy_layout(arena@.nodes, arena@.offsets, *self, writer@.position() as int);
            lemma_written_nothing(writer@);
        }
        let r = write_lazy_item(&arena.nodes, &mut arena.offsets, self, writer);
        proof {
            if r is Ok {
                lemma_lazy_assigned(nodes, table, *self, pos);
            }
        }
        r
    }

    /// Loads the item for the node at `offset`, through the registry. The
    /// absent offset gives the invalid item.
    fn deserialize(
        cache: &mut NodeRegistry,
        offset: u32,
        max_loads: u16,
        skipm: &mut HashSet<u32>,
    ) -> (r: Result<Self, LoadError>)
        ensures
            final(cache).arena.cells@ == old(cache).arena.cells@,
            offset == u32::MAX ==> {
                &&& r == Ok::<LazyItem, LoadError>(LazyItem::Invalid)
                &&& final(cache)@ == old(cache)@
                &&& final(skipm)@ == old(skipm)@
            },
    {
        proof {
            lemma_load_lazy(
                cache@.bytes,
                state_of(cache@.arena, cache@.registry, skipm@),
                offset,
                max_loads,
            );
        }
        load_lazy_item(
            cache.reader.as_slice(),
            &mut cache.arena,
            &mut cache.registry,
            skipm,
            offset,
            max_loads,
        )
    }

    proof fn lemma_load_keeps(bytes: Seq<u8>, st: LoadState, offset: u32, max_loads: u16) {
        lemma_load_lazy_keeps(bytes, st, offset, max_loads);
    }
}

impl CustomSerialize for LazyItemRef {
    type Loaded = LazyItem;

    open spec fn loaded(&self, arena: NodeArena) -> LazyItem {
        arena.cell(*self)
    }

    open spec fn layout(&self, arena: NodeArena, pos: int) -> Layout {
        lazy_layout(arena@.nodes, arena@.offsets, arena.cell(*self), pos)
    }

    open spec fn load(bytes: Seq<u8>, st: LoadState, offset: u32, max_loads: u16) -> (
        Result<LazyItem, LoadError>,
        LoadState,
    ) {
        load_lazy(bytes, st, offset, max_loads)
    }

    /// Writes what the cell holds as a lazy item is written.
    fn serialize(&self, arena: &mut NodeArena, writer: &mut CustomBufferedWriter) -> (r: Result<
        u32,
        StoreError,
    >)
        ensures
            old(arena).cell(*self) is Invalid ==> {
                &&& r == Ok::<u32, StoreError>(u32::MAX)
                &&& final(writer)@ == old(writer)@
            },
            final(arena).cell(*self) == old(arena).cell(*self),
            r matches Ok(v) ==> v == offset_or_absent(
                lazy_offset(final(arena)@.offsets, final(arena).cell(*self)),
            ),
    {
        let item: LazyItem = arena.read_cell(*self);
        item.serialize(arena, writer)
    }

    /// Loads the item for the node at `offset` into a new cell and returns
    /// the holder of that cell. No other cell changes.
    fn deserialize(
        cache: &mut NodeRegistry,
        offset: u32,
        max_loads: u16,
        skipm: &mut HashSet<u32>,
    ) -> (r: Result<Self, LoadError>)
        ensures
            r matches Ok(holder) ==> {
                &&& holder.place matches CellPlace::Own(cell) && cell == old(
                    cache,
                ).arena.cells@.len()
                &&& final(cache).arena.cells@ == old(cache).arena.cells@.push(
                    final(cache).arena.cell(holder),
                )
            },
            offset == u32::MAX ==> {
                &&& r is Ok
                &&& final(cache).arena.cell(r->Ok_0) is Invalid
                &&& final(cache)@ == old(cache)@
                &&& final(skipm)@ == old(skipm)@
            },
    {
        match LazyItem::deserialize(cache, offset, max_loads, skipm) {
            Err(e) => Err(e),
            Ok(item) => Ok(LazyItemRef::from_lazy(item, &mut cache.arena)),
        }
    }

    proof fn lemma_load_keeps(bytes: Seq<u8>, st: LoadState, offset: u32, max_loads: u16) {
        lemma_load_lazy_keeps(bytes, st, offset, max_loads);
    }
}

} // verus!
