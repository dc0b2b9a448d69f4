//! The loader of the index file and the registry of what it has loaded.
//!
//! A lazy item is loaded through the registry: an offset that was loaded
//! before gives the item that was registered for it. An offset that is being
//! loaded further up, or that is met when the budget of loads is used up,
//! gives an item that holds the offset and no node; it can be loaded later.
//!
//! The spec functions here say what a load returns and how it leaves the
//! arena, the registry and the set of offsets in progress.

use crate::models::common::LoadError;
use crate::models::endian::{read16, read32, read_u16_at, read_u32_at};
use crate::models::identity_collections::{inserted_all, IdentityMapKey, KeyView};
use crate::models::lazy_load::{
    EagerLazyItem, EagerLazyItemSet, LazyItem, LazyItemId, LazyItemMap, LazyItemSet,
    CHUNK_SIZE,
};
use crate::models::node_arena::{ArenaState, NodeArena};
use crate::models::registry_laws::{consistent, lemma_consistent_at_rest};
use crate::models::serializer::CustomSerialize;
use crate::models::serializer::layout::{CHUNK_HEAD_SIZE, CHUNK_LINK_AT, NODE_RECORD_SIZE};
use crate::models::serializer::lazy_item_map::{check_record, key_at, read_key, record_at};
use crate::models::types::{FileOffset, Item, MergedNode, MergedNodeView, PropState};
use std::collections::{HashMap, HashSet};
use vstd::prelude::*;

verus! {

broadcast use vstd::std_specs::hash::group_hash_axioms;

/// The loads that one call from outside may nest.
pub const MAX_LOADS: u16 = 1000;

/// What a load works on: the arena, the registry, and the offsets whose
/// load is in progress.
pub struct LoadState {
    pub nodes: Seq<MergedNodeView>,
    pub offsets: Seq<Option<FileOffset>>,
    pub registry: Map<u32, LazyItem>,
    pub skip: Set<u32>,
}

/// What the slots of a collection point to.
#[derive(Clone, Copy, PartialEq, Eq, Structural, Debug)]
pub enum EntryKind {
    /// A node.
    Plain,
    /// A similarity and the offset of a node.
    Eager,
    /// A key and the offset of a node.
    Keyed,
}

/// An entry as it was read: the similarity of a neighbour, or the key of a
/// map entry, and the item. What the kind of entry does not have is zero.
#[derive(Debug)]
pub struct LoadedEntry {
    pub similarity: u32,
    pub key: IdentityMapKey,
    pub item: LazyItem,
}

/// A loaded entry as contracts see it.
pub struct LoadedEntryView {
    pub similarity: u32,
    pub key: KeyView,
    pub item: LazyItem,
}

impl View for LoadedEntry {
    type V = LoadedEntryView;

    open spec fn view(&self) -> LoadedEntryView {
        LoadedEntryView { similarity: self.similarity, key: self.key@, item: self.item }
    }
}

/// The entries as contracts see them.
pub open spec fn loaded_views(entries: Seq<LoadedEntry>) -> Seq<LoadedEntryView> {
    entries.map_values(|e: LoadedEntry| e@)
}

/// The fields of a node record.
pub struct NodeHeader {
    pub version_id: u16,
    pub hnsw_level: u8,
    pub prop: (FileOffset, u32),
    pub parent: u32,
    pub child: u32,
    pub neighbors: u32,
    pub versions: u32,
}

/// The node record at `at`.
pub open spec fn header_at(bytes: Seq<u8>, at: int) -> NodeHeader {
    NodeHeader {
        version_id: read16(bytes, at),
        hnsw_level: bytes[at + 2],
        prop: (read32(bytes, at + 3), read32(bytes, at + 7)),
        parent: read32(bytes, at + 11),
        child: read32(bytes, at + 15),
        neighbors: read32(bytes, at + 19),
        versions: read32(bytes, at + 23),
    }
}

/// The first `n` slots of the chunk at `chunk`, without the absent ones.
pub open spec fn slots_upto(bytes: Seq<u8>, chunk: int, n: int) -> Seq<u32>
    decreases n,
{
    if n <= 0 {
        Seq::empty()
    } else {
        let before = slots_upto(bytes, chunk, n - 1);
        let slot = read32(bytes, chunk + 4 * (n - 1));
        if slot == u32::MAX {
            before
        } else {
            before.push(slot)
        }
    }
}

/// The slots of the chain of chunks that starts at `chunk`. Each chunk of a
/// chain lies behind the one before it.
pub open spec fn chain_slots(bytes: Seq<u8>, chunk: u32) -> Result<Seq<u32>, LoadError>
    decreases bytes.len() - chunk,
{
    match record_at(bytes, chunk, CHUNK_HEAD_SIZE as int) {
        Err(e) => Err(e),
        Ok(()) => {
            let next = read32(bytes, chunk + CHUNK_LINK_AT);
            let here = slots_upto(bytes, chunk as int, CHUNK_SIZE as int);
            if next == u32::MAX {
                Ok(here)
            } else if next <= chunk || next >= bytes.len() {
                Err(LoadError::Corrupt)
            } else {
                match chain_slots(bytes, next) {
                    Err(e) => Err(e),
                    Ok(rest) => Ok(here + rest),
                }
            }
        },
    }
}

/// The slots of the collection at `offset`: none for the absent offset.
pub open spec fn collection_slots(bytes: Seq<u8>, offset: u32) -> Result<Seq<u32>, LoadError> {
    if offset == u32::MAX {
        Ok(Seq::empty())
    } else {
        chain_slots(bytes, offset)
    }
}

/// The identity of an item that was loaded: its offset.
pub open spec fn persisted_id(item: LazyItem) -> LazyItemId {
    match item.offset() {
        Some(o) => LazyItemId::Persist(o),
        None => LazyItemId::Persist(u32::MAX),
    }
}

/// The set of neighbours made of loaded entries.
pub open spec fn as_neighbors(entries: Seq<LoadedEntryView>) -> Seq<(LazyItemId, EagerLazyItem)> {
    inserted_all(
        Seq::empty(),
        entries.map_values(
            |e: LoadedEntryView| (persisted_id(e.item), EagerLazyItem(e.similarity, e.item)),
        ),
    )
}

/// The set of lazy items made of loaded entries.
pub open spec fn as_items(entries: Seq<LoadedEntryView>) -> Seq<(LazyItemId, LazyItem)> {
    inserted_all(
        Seq::empty(),
        entries.map_values(|e: LoadedEntryView| (persisted_id(e.item), e.item)),
    )
}

/// The map made of loaded entries.
pub open spec fn as_versions(entries: Seq<LoadedEntryView>) -> Seq<(KeyView, LazyItem)> {
    inserted_all(Seq::empty(), entries.map_values(|e: LoadedEntryView| (e.key, e.item)))
}

/// The item that stands for an offset whose node is not loaded.
pub open spec fn pending_item(offset: u32) -> LazyItem {
    LazyItem::Valid { data: None, offset: Some(offset), decay_counter: 0 }
}

/// The item for the node at `offset`. The absent offset is the invalid
/// item. A registered offset is the registered item. An offset in progress,
/// or one met with no load left, is a pending item. Any other offset is
/// loaded with one load less, put into the arena and registered.
#[verifier::opaque]
pub open spec fn load_lazy(bytes: Seq<u8>, st: LoadState, offset: u32, max_loads: u16) -> (
    Result<LazyItem, LoadError>,
    LoadState,
)
    decreases max_loads, 0int, 0int,
{
    if offset == u32::MAX {
        (Ok(LazyItem::Invalid), st)
    } else if st.registry.contains_key(offset) {
        (Ok(st.registry[offset]), st)
    } else if max_loads == 0 || st.skip.contains(offset) {
        (Ok(pending_item(offset)), st)
    } else {
        let entered = LoadState { skip: st.skip.insert(offset), ..st };
        let (node, after) = load_node(bytes, entered, offset, (max_loads - 1) as u16);
        match node {
            Err(e) => (Err(e), after),
            Ok(node) => {
                let item = LazyItem::Valid {
                    data: Some(after.nodes.len() as usize),
                    offset: Some(offset),
                    decay_counter: 0,
                };
                (
                    Ok(item),
                    LoadState {
                        nodes: after.nodes.push(node),
                        offsets: after.offsets.push(Some(offset)),
                        registry: after.registry.insert(offset, item),
                        skip: after.skip,
                    },
                )
            },
        }
    }
}

/// The node whose record lies at `offset`: its parent, its child, its
/// neighbours and its versions are loaded in this order. The node is in
/// step with the file and its property is pending.
#[verifier::opaque]
pub open spec fn load_node(bytes: Seq<u8>, st: LoadState, offset: u32, max_loads: u16) -> (
    Result<MergedNodeView, LoadError>,
    LoadState,
)
    decreases max_loads, 3int, 0int,
{
    match record_at(bytes, offset, NODE_RECORD_SIZE as int) {
        Err(e) => (Err(e), st),
        Ok(()) => {
            let h = header_at(bytes, offset as int);
            let (parent, st1) = load_lazy(bytes, st, h.parent, max_loads);
            match parent {
                Err(e) => (Err(e), st1),
                Ok(parent) => {
                    let (child, st2) = load_lazy(bytes, st1, h.child, max_loads);
                    match (child, collection_slots(bytes, h.neighbors)) {
                        (Err(e), _) => (Err(e), st2),
                        (Ok(_), Err(e)) => (Err(e), st2),
                        (Ok(child), Ok(neighbor_slots)) => {
                            let (neighbors, st3) = load_entries(
                                bytes,
                                st2,
                                neighbor_slots,
                                EntryKind::Eager,
                                max_loads,
                            );
                            match (neighbors, collection_slots(bytes, h.versions)) {
                                (Err(e), _) => (Err(e), st3),
                                (Ok(_), Err(e)) => (Err(e), st3),
                                (Ok(neighbors), Ok(version_slots)) => {
                                    let (versions, st4) = load_entries(
                                        bytes,
                                        st3,
                                        version_slots,
                                        EntryKind::Keyed,
                                        max_loads,
                                    );
                                    match versions {
                                        Err(e) => (Err(e), st4),
                                        Ok(versions) => (
                                            Ok(
                                                MergedNodeView {
                                                    version_id: h.version_id,
                                                    hnsw_level: h.hnsw_level,
                                                    prop: PropState::Pending(h.prop),
                                                    neighbors: as_neighbors(neighbors),
                                                    parent,
                                                    child,
                                                    versions: as_versions(versions),
                                                    persist_flag: false,
                                                },
                                            ),
                                            st4,
                                        ),
                                    }
                                },
                            }
                        },
                    }
                },
            }
        },
    }
}

/// The entries that `slots` point to, loaded in order.
#[verifier::opaque]
pub open spec fn load_entries(
    bytes: Seq<u8>,
    st: LoadState,
    slots: Seq<u32>,
    kind: EntryKind,
    max_loads: u16,
) -> (Result<Seq<LoadedEntryView>, LoadError>, LoadState)
    decreases max_loads, 2int, slots.len(),
{
    if slots.len() == 0 {
        (Ok(Seq::empty()), st)
    } else {
        let (first, st1) = load_entry(bytes, st, slots[0], kind, max_loads);
        match first {
            Err(e) => (Err(e), st1),
            Ok(first) => {
                let (rest, st2) = load_entries(bytes, st1, slots.drop_first(), kind, max_loads);
                match rest {
                    Err(e) => (Err(e), st2),
                    Ok(rest) => (Ok(seq![first] + rest), st2),
                }
            },
        }
    }
}

/// The entry that `slot` points to. A plain slot is the offset of the
/// node. An eager slot points to a similarity and the offset of the node.
/// A keyed slot points to a key and the offset of the node.
#[verifier::opaque]
pub open spec fn load_entry(
    bytes: Seq<u8>,
    st: LoadState,
    slot: u32,
    kind: EntryKind,
    max_loads: u16,
) -> (Result<LoadedEntryView, LoadError>, LoadState)
    decreases max_loads, 1int, 0int,
{
    match kind {
        EntryKind::Plain => {
            let (item, st1) = load_lazy(bytes, st, slot, max_loads);
            match item {
                Err(e) => (Err(e), st1),
                Ok(item) => (
                    Ok(LoadedEntryView { similarity: 0, key: KeyView::Int(0), item }),
                    st1,
                ),
            }
        },
        EntryKind::Eager => {
            match record_at(bytes, slot, 8) {
                Err(e) => (Err(e), st),
                Ok(()) => {
                    let similarity = read32(bytes, slot as int);
                    let (item, st1) = load_lazy(bytes, st, read32(bytes, slot + 4), max_loads);
                    match item {
                        Err(e) => (Err(e), st1),
                        Ok(item) => (
                            Ok(LoadedEntryView { similarity, key: KeyView::Int(0), item }),
                            st1,
                        ),
                    }
                },
            }
        },
        EntryKind::Keyed => {
            match key_at(bytes, slot) {
                Err(e) => (Err(e), st),
                Ok((key, end)) => {
                    if end + 4 > bytes.len() {
                        (Err(LoadError::Truncated), st)
                    } else {
                        let (item, st1) = load_lazy(bytes, st, read32(bytes, end), max_loads);
                        match item {
                            Err(e) => (Err(e), st1),
                            Ok(item) => (Ok(LoadedEntryView { similarity: 0, key, item }), st1),
                        }
                    }
                },
            }
        },
    }
}

/// What `load_lazy` is, one step deep.
pub proof fn lemma_load_lazy(bytes: Seq<u8>, st: LoadState, offset: u32, max_loads: u16)
    ensures
        offset == u32::MAX ==> load_lazy(bytes, st, offset, max_loads) == (
            Ok::<LazyItem, LoadError>(LazyItem::Invalid),
            st,
        ),
        offset != u32::MAX && st.registry.contains_key(offset) ==> load_lazy(
            bytes,
            st,
            offset,
            max_loads,
        ) == (Ok::<LazyItem, LoadError>(st.registry[offset]), st),
        offset != u32::MAX && !st.registry.contains_key(offset) && (max_loads == 0
            || st.skip.contains(offset)) ==> load_lazy(bytes, st, offset, max_loads) == (
            Ok::<LazyItem, LoadError>(pending_item(offset)),
            st,
        ),
        offset != u32::MAX && !st.registry.contains_key(offset) && max_loads > 0
            && !st.skip.contains(offset) ==> ({
            let entered = LoadState { skip: st.skip.insert(offset), ..st };
            let (node, after) = load_node(bytes, entered, offset, (max_loads - 1) as u16);
            let item = LazyItem::Valid {
                data: Some(after.nodes.len() as usize),
                offset: Some(offset),
                decay_counter: 0,
            };
            load_lazy(bytes, st, offset, max_loads) == match node {
                Err(e) => (Err::<LazyItem, LoadError>(e), after),
                Ok(node) => (
                    Ok::<LazyItem, LoadError>(item),
                    LoadState {
                        nodes: after.nodes.push(node),
                        offsets: after.offsets.push(Some(offset)),
                        registry: after.registry.insert(offset, item),
                        skip: after.skip,
                    },
                ),
            }
        }),
{
    reveal_with_fuel(load_lazy, 1);
    reveal_with_fuel(load_node, 1);
    reveal_with_fuel(load_entries, 1);
    reveal_with_fuel(load_entry, 1);
}

/// The node that `load_node` gives when all its parts load.
pub open spec fn loaded_node(
    h: NodeHeader,
    parent: LazyItem,
    child: LazyItem,
    neighbors: Seq<LoadedEntryView>,
    versions: Seq<LoadedEntryView>,
) -> MergedNodeView {
    MergedNodeView {
        version_id: h.version_id,
        hnsw_level: h.hnsw_level,
        prop: PropState::Pending(h.prop),
        neighbors: as_neighbors(neighbors),
        parent,
        child,
        versions: as_versions(versions),
        persist_flag: false,
    }
}

/// What `load_node` is, one step deep.
pub proof fn lemma_load_node(bytes: Seq<u8>, st: LoadState, offset: u32, max_loads: u16)
    ensures
        record_at(bytes, offset, 27) matches Err(e) ==> load_node(bytes, st, offset, max_loads)
            == (Err::<MergedNodeView, LoadError>(e), st),
        record_at(bytes, offset, 27) is Ok ==> ({
            let h = header_at(bytes, offset as int);
            let parent = load_lazy(bytes, st, h.parent, max_loads);
            let child = load_lazy(bytes, parent.1, h.child, max_loads);
            let neighbor_slots = collection_slots(bytes, h.neighbors);
            let neighbors = load_entries(
                bytes,
                child.1,
                neighbor_slots.unwrap(),
                EntryKind::Eager,
                max_loads,
            );
            let version_slots = collection_slots(bytes, h.versions);
            let versions = load_entries(
                bytes,
                neighbors.1,
                version_slots.unwrap(),
                EntryKind::Keyed,
                max_loads,
            );
            load_node(bytes, st, offset, max_loads) == if parent.0 is Err {
                (Err::<MergedNodeView, LoadError>(parent.0->Err_0), parent.1)
            } else if child.0 is Err {
                (Err::<MergedNodeView, LoadError>(child.0->Err_0), child.1)
            } else if neighbor_slots is Err {
                (Err::<MergedNodeView, LoadError>(neighbor_slots->Err_0), child.1)
            } else if neighbors.0 is Err {
                (Err::<MergedNodeView, LoadError>(neighbors.0->Err_0), neighbors.1)
            } else if version_slots is Err {
                (Err::<MergedNodeView, LoadError>(version_slots->Err_0), neighbors.1)
            } else if versions.0 is Err {
                (Err::<MergedNodeView, LoadError>(versions.0->Err_0), versions.1)
            } else {
                (
                    Ok::<MergedNodeView, LoadError>(
                        loaded_node(
                            h,
                            parent.0->Ok_0,
                            child.0->Ok_0,
                            neighbors.0->Ok_0,
                            versions.0->Ok_0,
                        ),
                    ),
                    versions.1,
                )
            }
        }),
{
    reveal_with_fuel(load_lazy, 1);
    reveal_with_fuel(load_node, 1);
    reveal_with_fuel(load_entries, 1);
    reveal_with_fuel(load_entry, 1);
}

/// What `load_entries` is, one step deep.
pub proof fn lemma_load_entries(
    bytes: Seq<u8>,
    st: LoadState,
    slots: Seq<u32>,
    kind: EntryKind,
    max_loads: u16,
)
    ensures
        slots.len() == 0 ==> load_entries(bytes, st, slots, kind, max_loads) == (
            Ok::<Seq<LoadedEntryView>, LoadError>(Seq::empty()),
            st,
        ),
        slots.len() > 0 ==> ({
            let first = load_entry(bytes, st, slots[0], kind, max_loads);
            let rest = load_entries(bytes, first.1, slots.drop_first(), kind, max_loads);
            load_entries(bytes, st, slots, kind, max_loads) == if first.0 is Err {
                (Err::<Seq<LoadedEntryView>, LoadError>(first.0->Err_0), first.1)
            } else if rest.0 is Err {
                (Err::<Seq<LoadedEntryView>, LoadError>(rest.0->Err_0), rest.1)
            } else {
                (
                    Ok::<Seq<LoadedEntryView>, LoadError>(seq![first.0->Ok_0] + rest.0->Ok_0),
                    rest.1,
                )
            }
        }),
{
    reveal_with_fuel(load_lazy, 1);
    reveal_with_fuel(load_node, 1);
    reveal_with_fuel(load_entries, 1);
    reveal_with_fuel(load_entry, 1);
}

/// What `load_entry` is, one step deep.
pub proof fn lemma_load_entry(
    bytes: Seq<u8>,
    st: LoadState,
    slot: u32,
    kind: EntryKind,
    max_loads: u16,
)
    ensures
        kind == EntryKind::Plain ==> ({
            let item = load_lazy(bytes, st, slot, max_loads);
            load_entry(bytes, st, slot, kind, max_loads) == match item.0 {
                Err(e) => (Err::<LoadedEntryView, LoadError>(e), item.1),
                Ok(i) => (
                    Ok::<LoadedEntryView, LoadError>(
                        LoadedEntryView { similarity: 0, key: KeyView::Int(0), item: i },
                    ),
                    item.1,
                ),
            }
        }),
        kind == EntryKind::Eager ==> ({
            let item = load_lazy(bytes, st, read32(bytes, slot + 4), max_loads);
            load_entry(bytes, st, slot, kind, max_loads) == match record_at(bytes, slot, 8) {
                Err(e) => (Err::<LoadedEntryView, LoadError>(e), st),
                Ok(()) => match item.0 {
                    Err(e) => (Err::<LoadedEntryView, LoadError>(e), item.1),
                    Ok(i) => (
                        Ok::<LoadedEntryView, LoadError>(
                            LoadedEntryView {
                                similarity: read32(bytes, slot as int),
                                key: KeyView::Int(0),
                                item: i,
                            },
                        ),
                        item.1,
                    ),
                },
            }
        }),
        kind == EntryKind::Keyed ==> ({
            load_entry(bytes, st, slot, kind, max_loads) == match key_at(bytes, slot) {
                Err(e) => (Err::<LoadedEntryView, LoadError>(e), st),
                Ok((key, end)) => {
                    let item = load_lazy(bytes, st, read32(bytes, end), max_loads);
                    if end + 4 > bytes.len() {
                        (Err::<LoadedEntryView, LoadError>(LoadError::Truncated), st)
                    } else {
                        match item.0 {
                            Err(e) => (Err::<LoadedEntryView, LoadError>(e), item.1),
                            Ok(i) => (
                                Ok::<LoadedEntryView, LoadError>(
                                    LoadedEntryView { similarity: 0, key, item: i },
                                ),
                                item.1,
                            ),
                        }
                    }
                },
            }
        }),
{
    reveal_with_fuel(load_lazy, 1);
    reveal_with_fuel(load_node, 1);
    reveal_with_fuel(load_entries, 1);
    reveal_with_fuel(load_entry, 1);
}

/// The state that a load works on.
pub open spec fn state_of(arena: ArenaState, registry: Map<u32, LazyItem>, skip: Set<u32>)
    -> LoadState {
    LoadState { nodes: arena.nodes, offsets: arena.offsets, registry, skip }
}

/// A loaded chain in front of what the rest of the chain gives.
pub open spec fn chain_after(read: Seq<u32>, rest: Result<Seq<u32>, LoadError>) -> Result<
    Seq<u32>,
    LoadError,
> {
    match rest {
        Ok(slots) => Ok(read + slots),
        Err(e) => Err(e),
    }
}

/// Reads the slots of the collection at `offset`.
pub fn read_chain(bytes: &[u8], offset: u32) -> (r: Result<Vec<u32>, LoadError>)
    ensures
        match collection_slots(bytes@, offset) {
            Ok(slots) => r matches Ok(v) && v@ == slots,
            Err(e) => r matches Err(x) && x == e,
        },
{
    let mut out: Vec<u32> = Vec::new();
    if offset == u32::MAX {
        return Ok(out);
    }
    let total: usize = bytes.len();
    let mut chunk: u32 = offset;
    assert(Seq::<u32>::empty() + chain_slots(bytes@, offset)->Ok_0 =~= chain_slots(
        bytes@,
        offset,
    )->Ok_0);
    loop
        invariant
            total == bytes@.len(),
            chunk != u32::MAX,
            offset != u32::MAX,
            chain_slots(bytes@, offset) == chain_after(out@, chain_slots(bytes@, chunk)),
        decreases bytes@.len() - chunk,
    {
        let at: usize = match check_record(bytes, chunk, CHUNK_HEAD_SIZE as usize) {
            Err(e) => {
                return Err(e);
            },
            Ok(at) => at,
        };
        let ghost before = out@;
        let mut j: usize = 0;
        while j < CHUNK_SIZE
            invariant
                j <= CHUNK_SIZE,
                at == chunk,
                total == bytes@.len(),
                at + 24 <= bytes@.len(),
                out@ == before + slots_upto(bytes@, chunk as int, j as int),
            decreases CHUNK_SIZE - j,
        {
            let slot: u32 = read_u32_at(bytes, at + 4 * j);
            if slot != u32::MAX {
                out.push(slot);
            }
            j = j + 1;
            assert(out@ =~= before + slots_upto(bytes@, chunk as int, j as int));
        }
        let next: u32 = read_u32_at(bytes, at + CHUNK_LINK_AT as usize);
        if next == u32::MAX {
            assert(before + slots_upto(bytes@, chunk as int, 5) =~= out@);
            return Ok(out);
        }
        if next <= chunk || next as u64 >= total as u64 {
            return Err(LoadError::Corrupt);
        }
        proof {
            let here = slots_upto(bytes@, chunk as int, 5);
            match chain_slots(bytes@, next) {
                Ok(rest) => {
                    assert(before + (here + rest) =~= out@ + rest);
                },
                Err(e) => {},
            }
        }
        chunk = next;
    }
}

/// The identity of an item that was loaded: its offset.
pub fn persisted_id_of(item: &LazyItem) -> (id: LazyItemId)
    ensures
        id == persisted_id(*item),
{
    match item {
        LazyItem::Valid { offset: Some(o), .. } => LazyItemId::Persist(*o),
        _ => LazyItemId::Persist(u32::MAX),
    }
}

/// The set of neighbours made of loaded entries.
pub fn neighbors_from(entries: &Vec<LoadedEntry>) -> (set: EagerLazyItemSet)
    ensures
        set@ == as_neighbors(loaded_views(entries@)),
        set.items.wf(),
{
    let ghost pairs = loaded_views(entries@).map_values(
        |e: LoadedEntryView| (persisted_id(e.item), EagerLazyItem(e.similarity, e.item)),
    );
    let mut set = EagerLazyItemSet::new();
    let n: usize = entries.len();
    let mut i: usize = 0;
    assert(pairs.subrange(0, n as int) =~= pairs);
    while i < n
        invariant
            i <= n,
            n == entries@.len(),
            pairs == loaded_views(entries@).map_values(
                |e: LoadedEntryView| (persisted_id(e.item), EagerLazyItem(e.similarity, e.item)),
            ),
            set.items.wf(),
            inserted_all(Seq::empty(), pairs) == inserted_all(
                set@,
                pairs.subrange(i as int, n as int),
            ),
        decreases n - i,
    {
        let entry = &entries[i];
        let ghost rest = pairs.subrange(i as int, n as int);
        assert(rest[0] == (persisted_id(entry.item), EagerLazyItem(entry.similarity, entry.item)));
        assert(rest.drop_first() =~= pairs.subrange(i + 1, n as int));
        set.items.insert(persisted_id_of(&entry.item), EagerLazyItem(entry.similarity, entry.item));
        i = i + 1;
    }
    set
}

/// The set of lazy items made of loaded entries.
pub fn items_from(entries: &Vec<LoadedEntry>) -> (set: LazyItemSet)
    ensures
        set@ == as_items(loaded_views(entries@)),
        set.items.wf(),
{
    let ghost pairs = loaded_views(entries@).map_values(
        |e: LoadedEntryView| (persisted_id(e.item), e.item),
    );
    let mut set = LazyItemSet::new();
    let n: usize = entries.len();
    let mut i: usize = 0;
    assert(pairs.subrange(0, n as int) =~= pairs);
    while i < n
        invariant
            i <= n,
            n == entries@.len(),
            pairs == loaded_views(entries@).map_values(
                |e: LoadedEntryView| (persisted_id(e.item), e.item),
            ),
            set.items.wf(),
            inserted_all(Seq::empty(), pairs) == inserted_all(
                set@,
                pairs.subrange(i as int, n as int),
            ),
        decreases n - i,
    {
        let entry = &entries[i];
        let ghost rest = pairs.subrange(i as int, n as int);
        assert(rest[0] == (persisted_id(entry.item), entry.item));
        assert(rest.drop_first() =~= pairs.subrange(i + 1, n as int));
        set.items.insert(persisted_id_of(&entry.item), entry.item);
        i = i + 1;
    }
    set
}

/// The map made of loaded entries.
pub fn versions_from(entries: &Vec<LoadedEntry>) -> (map: LazyItemMap)
    ensures
        map@ == as_versions(loaded_views(entries@)),
        map.items.wf(),
{
    let ghost pairs = loaded_views(entries@).map_values(|e: LoadedEntryView| (e.key, e.item));
    let mut map = LazyItemMap::new();
    let n: usize = entries.len();
    let mut i: usize = 0;
    assert(pairs.subrange(0, n as int) =~= pairs);
    while i < n
        invariant
            i <= n,
            n == entries@.len(),
            pairs == loaded_views(entries@).map_values(|e: LoadedEntryView| (e.key, e.item)),
            map.items.wf(),
            inserted_all(Seq::empty(), pairs) == inserted_all(
                map@,
                pairs.subrange(i as int, n as int),
            ),
        decreases n - i,
    {
        let entry = &entries[i];
        let ghost rest = pairs.subrange(i as int, n as int);
        assert(rest[0] == (entry.key@, entry.item));
        assert(rest.drop_first() =~= pairs.subrange(i + 1, n as int));
        map.insert(entry.key.clone(), entry.item);
        i = i + 1;
    }
    map
}

/// Loads the item for the node at `offset`.
pub fn load_lazy_item(
    bytes: &[u8],
    arena: &mut NodeArena,
    registry: &mut HashMap<u32, LazyItem>,
    skipm: &mut HashSet<u32>,
    offset: u32,
    max_loads: u16,
) -> (r: Result<LazyItem, LoadError>)
    requires
        old(arena).wf(),
    ensures
        final(arena).wf(),
        final(arena).cells@ == old(arena).cells@,
        ({
            let spec = load_lazy(
                bytes@,
                state_of(old(arena)@, old(registry)@, old(skipm)@),
                offset,
                max_loads,
            );
            match spec.0 {
                Ok(v) => r == Ok::<LazyItem, LoadError>(v) && state_of(
                    final(arena)@,
                    final(registry)@,
                    final(skipm)@,
                ) == spec.1,
                Err(e) => r == Err::<LazyItem, LoadError>(e),
            }
        }),
    decreases max_loads, 0int, 0int,
{
    proof {
        lemma_load_lazy(bytes@, state_of(arena@, registry@, skipm@), offset, max_loads);
    }
    if offset == u32::MAX {
        return Ok(LazyItem::Invalid);
    }
    match registry.get(&offset) {
        Some(item) => {
            return Ok(*item);
        },
        None => {},
    }
    if max_loads == 0 || skipm.contains(&offset) {
        return Ok(LazyItem::Valid { data: None, offset: Some(offset), decay_counter: 0 });
    }
    skipm.insert(offset);
    let node = match load_node_record(bytes, arena, registry, skipm, offset, max_loads - 1) {
        Err(e) => {
            return Err(e);
        },
        Ok(node) => node,
    };
    let handle: Item = arena.insert_persisted(node, offset);
    let item = LazyItem::Valid { data: Some(handle), offset: Some(offset), decay_counter: 0 };
    registry.insert(offset, item);
    Ok(item)
}

/// Loads the node whose record lies at `offset`.
pub fn load_node_record(
    bytes: &[u8],
    arena: &mut NodeArena,
    registry: &mut HashMap<u32, LazyItem>,
    skipm: &mut HashSet<u32>,
    offset: u32,
    max_loads: u16,
) -> (r: Result<MergedNode, LoadError>)
    requires
        old(arena).wf(),
    ensures
        final(arena).wf(),
        final(arena).cells@ == old(arena).cells@,
        ({
            let spec = load_node(
                bytes@,
                state_of(old(arena)@, old(registry)@, old(skipm)@),
                offset,
                max_loads,
            );
            match spec.0 {
                Ok(v) => r matches Ok(n) && n@ == v && state_of(
                    final(arena)@,
                    final(registry)@,
                    final(skipm)@,
                ) == spec.1,
                Err(e) => r matches Err(x) && x == e,
            }
        }),
    decreases max_loads, 3int, 0int,
{
    proof {
        lemma_load_node(bytes@, state_of(arena@, registry@, skipm@), offset, max_loads);
    }
    let at: usize = match check_record(bytes, offset, NODE_RECORD_SIZE as usize) {
        Err(e) => {
            return Err(e);
        },
        Ok(at) => at,
    };
    let total: usize = bytes.len();
    let version_id: u16 = read_u16_at(bytes, at);
    let hnsw_level: u8 = bytes[at + 2];
    let prop: (u32, u32) = (read_u32_at(bytes, at + 3), read_u32_at(bytes, at + 7));
    let parent_at: u32 = read_u32_at(bytes, at + 11);
    let child_at: u32 = read_u32_at(bytes, at + 15);
    let neighbors_at: u32 = read_u32_at(bytes, at + 19);
    let versions_at: u32 = read_u32_at(bytes, at + 23);
    let parent = match load_lazy_item(bytes, arena, registry, skipm, parent_at, max_loads) {
        Err(e) => {
            return Err(e);
        },
        Ok(item) => item,
    };
    let child = match load_lazy_item(bytes, arena, registry, skipm, child_at, max_loads) {
        Err(e) => {
            return Err(e);
        },
        Ok(item) => item,
    };
    let neighbor_slots = match read_chain(bytes, neighbors_at) {
        Err(e) => {
            return Err(e);
        },
        Ok(slots) => slots,
    };
    let neighbors = match load_chunk_entries(
        bytes,
        arena,
        registry,
        skipm,
        &neighbor_slots,
        EntryKind::Eager,
        max_loads,
    ) {
        Err(e) => {
            return Err(e);
        },
        Ok(entries) => entries,
    };
    let version_slots = match read_chain(bytes, versions_at) {
        Err(e) => {
            return Err(e);
        },
        Ok(slots) => slots,
    };
    let versions = match load_chunk_entries(
        bytes,
        arena,
        registry,
        skipm,
        &version_slots,
        EntryKind::Keyed,
        max_loads,
    ) {
        Err(e) => {
            return Err(e);
        },
        Ok(entries) => entries,
    };
    Ok(
        MergedNode {
            version_id,
            hnsw_level,
            prop: PropState::Pending(prop),
            neighbors: neighbors_from(&neighbors),
            parent,
            child,
            versions: versions_from(&versions),
            persist_flag: false,
        },
    )
}

/// What was loaded so far in front of what the slots that are left give.
pub open spec fn entries_after(
    read: Seq<LoadedEntryView>,
    rest: (Result<Seq<LoadedEntryView>, LoadError>, LoadState),
) -> (Result<Seq<LoadedEntryView>, LoadError>, LoadState) {
    match rest.0 {
        Ok(entries) => (Ok(read + entries), rest.1),
        Err(e) => (Err(e), rest.1),
    }
}

/// Loads the entries that `slots` point to.
pub fn load_chunk_entries(
    bytes: &[u8],
    arena: &mut NodeArena,
    registry: &mut HashMap<u32, LazyItem>,
    skipm: &mut HashSet<u32>,
    slots: &Vec<u32>,
    kind: EntryKind,
    max_loads: u16,
) -> (r: Result<Vec<LoadedEntry>, LoadError>)
    requires
        old(arena).wf(),
    ensures
        final(arena).wf(),
        final(arena).cells@ == old(arena).cells@,
        ({
            let spec = load_entries(
                bytes@,
                state_of(old(arena)@, old(registry)@, old(skipm)@),
                slots@,
                kind,
                max_loads,
            );
            match spec.0 {
                Ok(v) => r matches Ok(entries) && loaded_views(entries@) == v && state_of(
                    final(arena)@,
                    final(registry)@,
                    final(skipm)@,
                ) == spec.1,
                Err(e) => r matches Err(x) && x == e,
            }
        }),
    decreases max_loads, 2int, slots@.len(),
{
    let ghost st0 = state_of(arena@, registry@, skipm@);
    let ghost total = load_entries(bytes@, st0, slots@, kind, max_loads);
    let mut out: Vec<LoadedEntry> = Vec::new();
    let n: usize = slots.len();
    let mut i: usize = 0;
    proof {
        assert(slots@.subrange(0, n as int) =~= slots@);
        assert(Seq::<LoadedEntryView>::empty() + total.0->Ok_0 =~= total.0->Ok_0);
        assert(loaded_views(out@) =~= Seq::<LoadedEntryView>::empty());
    }
    while i < n
        invariant
            i <= n,
            n == slots@.len(),
            arena.wf(),
            arena.cells@ == old(arena).cells@,
            total == load_entries(
                bytes@,
                state_of(old(arena)@, old(registry)@, old(skipm)@),
                slots@,
                kind,
                max_loads,
            ),
            total == entries_after(
                loaded_views(out@),
                load_entries(
                    bytes@,
                    state_of(arena@, registry@, skipm@),
                    slots@.subrange(i as int, n as int),
                    kind,
                    max_loads,
                ),
            ),
        decreases n - i,
    {
        let ghost st = state_of(arena@, registry@, skipm@);
        let ghost left = slots@.subrange(i as int, n as int);
        proof {
            lemma_load_entries(bytes@, st, left, kind, max_loads);
            assert(left[0] == slots@[i as int]);
            assert(left.drop_first() =~= slots@.subrange(i + 1, n as int));
        }
        let entry = match load_one_entry(bytes, arena, registry, skipm, slots[i], kind, max_loads) {
            Err(e) => {
                return Err(e);
            },
            Ok(entry) => entry,
        };
        let ghost before = loaded_views(out@);
        out.push(entry);
        i = i + 1;
        proof {
            assert(loaded_views(out@) =~= before.push(entry@));
            let rest = load_entries(
                bytes@,
                state_of(arena@, registry@, skipm@),
                slots@.subrange(i as int, n as int),
                kind,
                max_loads,
            );
            if rest.0 is Ok {
                assert(before + (seq![entry@] + rest.0->Ok_0) =~= before.push(entry@)
                    + rest.0->Ok_0);
            }
        }
    }
    proof {
        lemma_load_entries(
            bytes@,
            state_of(arena@, registry@, skipm@),
            slots@.subrange(n as int, n as int),
            kind,
            max_loads,
        );
        assert(loaded_views(out@) + Seq::<LoadedEntryView>::empty() =~= loaded_views(out@));
    }
    Ok(out)
}

/// Loads the entry that `slot` points to.
pub fn load_one_entry(
    bytes: &[u8],
    arena: &mut NodeArena,
    registry: &mut HashMap<u32, LazyItem>,
    skipm: &mut HashSet<u32>,
    slot: u32,
    kind: EntryKind,
    max_loads: u16,
) -> (r: Result<LoadedEntry, LoadError>)
    requires
        old(arena).wf(),
    ensures
        final(arena).wf(),
        final(arena).cells@ == old(arena).cells@,
        ({
            let spec = load_entry(
                bytes@,
                state_of(old(arena)@, old(registry)@, old(skipm)@),
                slot,
                kind,
                max_loads,
            );
            match spec.0 {
                Ok(v) => r matches Ok(entry) && entry@ == v && state_of(
                    final(arena)@,
                    final(registry)@,
                    final(skipm)@,
                ) == spec.1,
                Err(e) => r matches Err(x) && x == e,
            }
        }),
    decreases max_loads, 1int, 0int,
{
    proof {
        lemma_load_entry(bytes@, state_of(arena@, registry@, skipm@), slot, kind, max_loads);
    }
    let total: usize = bytes.len();
    match kind {
        EntryKind::Plain => {
            match load_lazy_item(bytes, arena, registry, skipm, slot, max_loads) {
                Err(e) => Err(e),
                Ok(item) => Ok(LoadedEntry { similarity: 0, key: IdentityMapKey::Int(0), item }),
            }
        },
        EntryKind::Eager => {
            let at: usize = match check_record(bytes, slot, 8) {
                Err(e) => {
                    return Err(e);
                },
                Ok(at) => at,
            };
            let similarity: u32 = read_u32_at(bytes, at);
            let target: u32 = read_u32_at(bytes, at + 4);
            match load_lazy_item(bytes, arena, registry, skipm, target, max_loads) {
                Err(e) => Err(e),
                Ok(item) => Ok(LoadedEntry { similarity, key: IdentityMapKey::Int(0), item }),
            }
        },
        EntryKind::Keyed => {
            let (key, end) = match read_key(bytes, slot) {
                Err(e) => {
                    return Err(e);
                },
                Ok(found) => found,
            };
            if 4 > total - end {
                return Err(LoadError::Truncated);
            }
            let target: u32 = read_u32_at(bytes, end);
            match load_lazy_item(bytes, arena, registry, skipm, target, max_loads) {
                Err(e) => Err(e),
                Ok(item) => Ok(LoadedEntry { similarity: 0, key, item }),
            }
        },
    }
}

/// The entries of the collection at `offset`.
pub open spec fn load_collection(
    bytes: Seq<u8>,
    st: LoadState,
    offset: u32,
    kind: EntryKind,
    max_loads: u16,
) -> (Result<Seq<LoadedEntryView>, LoadError>, LoadState) {
    match collection_slots(bytes, offset) {
        Err(e) => (Err(e), st),
        Ok(slots) => load_entries(bytes, st, slots, kind, max_loads),
    }
}

/// Loads the entries of the collection at `offset`.
pub fn load_collection_entries(
    bytes: &[u8],
    arena: &mut NodeArena,
    registry: &mut HashMap<u32, LazyItem>,
    skipm: &mut HashSet<u32>,
    offset: u32,
    kind: EntryKind,
    max_loads: u16,
) -> (r: Result<Vec<LoadedEntry>, LoadError>)
    requires
        old(arena).wf(),
    ensures
        final(arena).wf(),
        final(arena).cells@ == old(arena).cells@,
        ({
            let spec = load_collection(
                bytes@,
                state_of(old(arena)@, old(registry)@, old(skipm)@),
                offset,
                kind,
                max_loads,
            );
            match spec.0 {
                Ok(v) => r matches Ok(entries) && loaded_views(entries@) == v && state_of(
                    final(arena)@,
                    final(registry)@,
                    final(skipm)@,
                ) == spec.1,
                Err(e) => r matches Err(x) && x == e,
            }
        }),
{
    let slots = match read_chain(bytes, offset) {
        Err(e) => {
            return Err(e);
        },
        Ok(slots) => slots,
    };
    load_chunk_entries(bytes, arena, registry, skipm, &slots, kind, max_loads)
}

/// The file, the nodes loaded from it, and the item registered for each
/// offset that was loaded.
pub struct NodeRegistry {
    pub reader: Vec<u8>,
    pub arena: NodeArena,
    pub registry: HashMap<u32, LazyItem>,
}

/// A registry as contracts see it.
pub struct RegistryState {
    pub bytes: Seq<u8>,
    pub arena: ArenaState,
    pub registry: Map<u32, LazyItem>,
}

impl RegistryState {
    /// The state in which a call from outside starts: no load is in progress.
    pub open spec fn at_rest(self) -> LoadState {
        state_of(self.arena, self.registry, Set::empty())
    }

    /// The registry after a load that ended in `st`.
    pub open spec fn after(self, st: LoadState) -> RegistryState {
        RegistryState {
            bytes: self.bytes,
            arena: ArenaState { nodes: st.nodes, offsets: st.offsets },
            registry: st.registry,
        }
    }
}

impl View for NodeRegistry {
    type V = RegistryState;

    open spec fn view(&self) -> RegistryState {
        RegistryState { bytes: self.reader@, arena: self.arena@, registry: self.registry@ }
    }
}

impl NodeRegistry {
    pub open spec fn wf(&self) -> bool {
        self.arena.wf()
    }

    /// Every registered offset stands for a node of the arena that is what
    /// the record at the offset says.
    pub open spec fn consistent(&self) -> bool {
        consistent(self@.bytes, self@.at_rest())
    }

    /// A registry over the file `reader`, with room for `capacity` offsets
    /// to begin with.
    pub fn new(capacity: usize, reader: Vec<u8>) -> (cache: Self)
        ensures
            cache.wf(),
            cache@.bytes == reader@,
            cache@.arena.nodes.len() == 0,
            cache@.arena.offsets.len() == 0,
            cache@.registry == Map::<u32, LazyItem>::empty(),
            cache.consistent(),
    {
        NodeRegistry {
            reader,
            arena: NodeArena::new(),
            registry: HashMap::with_capacity(capacity),
        }
    }

    /// The node at `item`.
    pub fn node(&self, item: Item) -> (node: &MergedNode)
        requires
            item < self@.arena.nodes.len(),
        ensures
            node@ == self@.arena.nodes[item as int],
    {
        self.arena.get(item)
    }

    /// The item for the node at `offset`, loaded unless it is registered.
    pub fn get_object(&mut self, offset: u32, max_loads: u16, skipm: &mut HashSet<u32>) -> (r:
        Result<LazyItem, LoadError>)
        requires
            old(self).wf(),
        ensures
            final(self).wf(),
            final(self)@.bytes == old(self)@.bytes,
            final(self).arena.cells@ == old(self).arena.cells@,
            ({
                let spec = load_lazy(
                    old(self)@.bytes,
                    state_of(old(self)@.arena, old(self)@.registry, old(skipm)@),
                    offset,
                    max_loads,
                );
                match spec.0 {
                    Ok(v) => r == Ok::<LazyItem, LoadError>(v) && final(self)@ == old(self)@.after(
                        spec.1,
                    ) && final(skipm)@ == spec.1.skip,
                    Err(e) => r == Err::<LazyItem, LoadError>(e),
                }
            }),
    {
        load_lazy_item(
            self.reader.as_slice(),
            &mut self.arena,
            &mut self.registry,
            skipm,
            offset,
            max_loads,
        )
    }

    /// Loads the value written at `offset`, with nothing in progress and
    /// `MAX_LOADS` nested loads.
    pub fn load_item<T: CustomSerialize>(&mut self, offset: u32) -> (r: Result<T, LoadError>)
        requires
            old(self).wf(),
        ensures
            final(self).wf(),
            final(self)@.bytes == old(self)@.bytes,
            old(self).consistent() && r is Ok ==> final(self).consistent(),
            ({
                let spec = T::load(old(self)@.bytes, old(self)@.at_rest(), offset, MAX_LOADS);
                match spec.0 {
                    Ok(v) => {
                        &&& r is Ok
                        &&& r->Ok_0.loaded(final(self).arena) == v
                        &&& final(self)@ == old(self)@.after(spec.1)
                    },
                    Err(e) => r matches Err(x) && x == e,
                }
            }),
    {
        let ghost before = self@;
        let mut skipm: HashSet<u32> = HashSet::new();
        let r = T::deserialize(self, offset, MAX_LOADS, &mut skipm);
        let held: usize = self.arena.len();
        proof {
            if r is Ok && consistent(before.bytes, before.at_rest()) {
                T::lemma_load_keeps(before.bytes, before.at_rest(), offset, MAX_LOADS);
                lemma_consistent_at_rest(
                    before.bytes,
                    T::load(before.bytes, before.at_rest(), offset, MAX_LOADS).1,
                );
            }
        }
        r
    }
}

} // verus!
