//! A graph that was written can be loaded.
//!
//! A file that holds a faithful record for every node of a graph that has
//! an offset, and in which every link leads to such a node, is loaded
//! without an error from any of these offsets, whatever the registry holds
//! and however few loads are left. A graph that was in memory only and is
//! written by one write leaves such a file.

use crate::models::cache_loader::{
    collection_slots, header_at, lemma_load_entries, lemma_load_entry, lemma_load_lazy,
    lemma_load_node, load_entries, load_entry, load_lazy, load_node, EntryKind, LoadState,
};
use crate::models::custom_buffered_writer::MAX_FILE_LEN;
use crate::models::endian::lemma_le_round_trip;
use crate::models::identity_collections::KeyView;
use crate::models::lazy_load::{EagerLazyItem, LazyItem, LazyItemId};
use crate::models::serializer::assigned::lemma_lazy_assigned;
use crate::models::serializer::decode::{entry_lies, lies_at};
use crate::models::serializer::faithful::{lemma_lazy_faithful, offset_in, record_faithful, settled};
use crate::models::serializer::layout::{eager_entries, key_bytes, keyed_entries, lazy_layout};
use crate::models::serializer::lazy_item_map::{key_encodable, lemma_key_round_trip};
use crate::models::types::{FileOffset, MergedNodeView};
use vstd::prelude::*;

verus! {

/// `item` is invalid or holds a node of an arena of `nodes` nodes, and no
/// offset of its own.
pub open spec fn in_memory(item: LazyItem, nodes: int) -> bool {
    item is Invalid || (item.offset() is None && item.data() is Some && item.data().unwrap()
        < nodes)
}

/// Every link of `node` is in memory, and every key of its versions can be
/// encoded.
pub open spec fn node_in_memory(node: MergedNodeView, nodes: int) -> bool {
    &&& in_memory(node.parent, nodes)
    &&& in_memory(node.child, nodes)
    &&& forall|i: int|
        0 <= i < node.neighbors.len() ==> in_memory((#[trigger] node.neighbors[i]).1.1, nodes)
    &&& forall|i: int|
        0 <= i < node.versions.len() ==> in_memory((#[trigger] node.versions[i]).1, nodes)
            && key_encodable(node.versions[i].0)
}

/// The file holds the graph: every node that has an offset in `table` has
/// its record there, and its links are in memory.
pub open spec fn holds_graph(
    file: Seq<u8>,
    nodes: Seq<MergedNodeView>,
    table: Seq<Option<FileOffset>>,
) -> bool {
    &&& nodes.len() == table.len()
    &&& forall|h: int|
        0 <= h < nodes.len() && (#[trigger] table[h]) is Some ==> record_faithful(
            file,
            nodes[h],
            table[h].unwrap(),
            table,
        ) && node_in_memory(nodes[h], nodes.len() as int)
}

/// The offset of a link that is in memory is the absent offset or the
/// offset of a node.
pub open spec fn leads_to_node(table: Seq<Option<FileOffset>>, offset: u32) -> bool {
    offset == u32::MAX || exists|k: int| 0 <= k < table.len() && #[trigger] table[k] == Some(offset)
}

/// A link that is in memory and settled leads to a node.
pub proof fn lemma_link_leads(table: Seq<Option<FileOffset>>, item: LazyItem)
    requires
        in_memory(item, table.len() as int),
        settled(table, item),
    ensures
        leads_to_node(table, offset_in(table, item)),
{
    if item is Valid {
        let k = item.data().unwrap() as int;
        assert(table[k] == Some(offset_in(table, item)));
    }
}

/// An item for an offset that leads to a node is loaded without an error.
pub proof fn lemma_load_lazy_ok(
    file: Seq<u8>,
    nodes: Seq<MergedNodeView>,
    table: Seq<Option<FileOffset>>,
    st: LoadState,
    offset: u32,
    max_loads: u16,
)
    requires
        holds_graph(file, nodes, table),
        leads_to_node(table, offset),
    ensures
        load_lazy(file, st, offset, max_loads).0 is Ok,
    decreases max_loads, 0int, 0int,
{
    lemma_load_lazy(file, st, offset, max_loads);
    if offset != u32::MAX && !st.registry.contains_key(offset) && max_loads > 0
        && !st.skip.contains(offset) {
        let k = choose|k: int| 0 <= k < table.len() && #[trigger] table[k] == Some(offset);
        let entered = LoadState { skip: st.skip.insert(offset), ..st };
        lemma_load_node_ok(file, nodes, table, entered, k, (max_loads - 1) as u16);
    }
}

/// A node that has an offset is loaded from there without an error.
pub proof fn lemma_load_node_ok(
    file: Seq<u8>,
    nodes: Seq<MergedNodeView>,
    table: Seq<Option<FileOffset>>,
    st: LoadState,
    k: int,
    max_loads: u16,
)
    requires
        holds_graph(file, nodes, table),
        0 <= k < nodes.len(),
        table[k] is Some,
    ensures
        load_node(file, st, table[k].unwrap(), max_loads).0 is Ok,
    decreases max_loads, 3int, 0int,
{
    let at = table[k].unwrap();
    let node = nodes[k];
    assert(record_faithful(file, node, at, table));
    assert(node_in_memory(node, nodes.len() as int));
    lemma_load_node(file, st, at, max_loads);
    let h = header_at(file, at as int);
    lemma_link_leads(table, node.parent);
    lemma_load_lazy_ok(file, nodes, table, st, h.parent, max_loads);
    let p = load_lazy(file, st, h.parent, max_loads);
    lemma_link_leads(table, node.child);
    lemma_load_lazy_ok(file, nodes, table, p.1, h.child, max_loads);
    let c = load_lazy(file, p.1, h.child, max_loads);
    let neighbor_slots = collection_slots(file, h.neighbors).unwrap();
    assert(neighbor_slots.subrange(0, neighbor_slots.len() as int) =~= neighbor_slots);
    lemma_load_neighbors_ok(
        file,
        nodes,
        table,
        c.1,
        node.neighbors,
        neighbor_slots,
        0,
        max_loads,
    );
    let n = load_entries(file, c.1, neighbor_slots, EntryKind::Eager, max_loads);
    let version_slots = collection_slots(file, h.versions).unwrap();
    assert(version_slots.subrange(0, version_slots.len() as int) =~= version_slots);
    lemma_load_versions_ok(file, nodes, table, n.1, node.versions, version_slots, 0, max_loads);
}

/// The neighbours from place `from` on are loaded without an error.
pub proof fn lemma_load_neighbors_ok(
    file: Seq<u8>,
    nodes: Seq<MergedNodeView>,
    table: Seq<Option<FileOffset>>,
    st: LoadState,
    set: Seq<(LazyItemId, EagerLazyItem)>,
    slots: Seq<u32>,
    from: int,
    max_loads: u16,
)
    requires
        holds_graph(file, nodes, table),
        0 <= from <= slots.len(),
        slots.len() == set.len(),
        forall|i: int|
            0 <= i < set.len() ==> {
                &&& entry_lies(
                    file,
                    #[trigger] slots[i],
                    eager_entries(set)[i].prefix,
                    offset_in(table, set[i].1.1),
                )
                &&& settled(table, set[i].1.1)
                &&& in_memory(set[i].1.1, nodes.len() as int)
            },
    ensures
        load_entries(
            file,
            st,
            slots.subrange(from, slots.len() as int),
            EntryKind::Eager,
            max_loads,
        ).0 is Ok,
    decreases max_loads, 2int, slots.len() - from,
{
    lemma_le_round_trip();
    let left = slots.subrange(from, slots.len() as int);
    lemma_load_entries(file, st, left, EntryKind::Eager, max_loads);
    if from < slots.len() {
        let slot = slots[from];
        assert(left[0] == slot);
        assert(left.drop_first() =~= slots.subrange(from + 1, slots.len() as int));
        assert(entry_lies(
            file,
            slot,
            eager_entries(set)[from].prefix,
            offset_in(table, set[from].1.1),
        ));
        lemma_load_entry(file, st, slot, EntryKind::Eager, max_loads);
        lemma_link_leads(table, set[from].1.1);
        lemma_load_lazy_ok(file, nodes, table, st, offset_in(table, set[from].1.1), max_loads);
        let first = load_entry(file, st, slot, EntryKind::Eager, max_loads);
        lemma_load_neighbors_ok(file, nodes, table, first.1, set, slots, from + 1, max_loads);
    }
}

/// The versions from place `from` on are loaded without an error.
pub proof fn lemma_load_versions_ok(
    file: Seq<u8>,
    nodes: Seq<MergedNodeView>,
    table: Seq<Option<FileOffset>>,
    st: LoadState,
    map: Seq<(KeyView, LazyItem)>,
    slots: Seq<u32>,
    from: int,
    max_loads: u16,
)
    requires
        holds_graph(file, nodes, table),
        0 <= from <= slots.len(),
        slots.len() == map.len(),
        forall|i: int|
            0 <= i < map.len() ==> {
                &&& entry_lies(
                    file,
                    #[trigger] slots[i],
                    keyed_entries(map)[i].prefix,
                    offset_in(table, map[i].1),
                )
                &&& settled(table, map[i].1)
                &&& in_memory(map[i].1, nodes.len() as int)
                &&& key_encodable(map[i].0)
            },
    ensures
        load_entries(
            file,
            st,
            slots.subrange(from, slots.len() as int),
            EntryKind::Keyed,
            max_loads,
        ).0 is Ok,
    decreases max_loads, 2int, slots.len() - from,
{
    lemma_le_round_trip();
    let left = slots.subrange(from, slots.len() as int);
    lemma_load_entries(file, st, left, EntryKind::Keyed, max_loads);
    if from < slots.len() {
        let slot = slots[from];
        assert(left[0] == slot);
        assert(left.drop_first() =~= slots.subrange(from + 1, slots.len() as int));
        assert(entry_lies(
            file,
            slot,
            keyed_entries(map)[from].prefix,
            offset_in(table, map[from].1),
        ));
        assert(keyed_entries(map)[from].prefix == key_bytes(map[from].0));
        lemma_key_round_trip(file, slot, map[from].0);
        lemma_load_entry(file, st, slot, EntryKind::Keyed, max_loads);
        lemma_link_leads(table, map[from].1);
        lemma_load_lazy_ok(file, nodes, table, st, offset_in(table, map[from].1), max_loads);
        let first = load_entry(file, st, slot, EntryKind::Keyed, max_loads);
        lemma_load_versions_ok(file, nodes, table, first.1, map, slots, from + 1, max_loads);
    }
}

/// No node of `table` has an offset.
pub open spec fn fresh(table: Seq<Option<FileOffset>>) -> bool {
    forall|h: int| 0 <= h < table.len() ==> (#[trigger] table[h]) is None
}

/// A graph that was in memory only, written by one write, loads again: the
/// file holds the graph, and a load of the item that was written, or of
/// any node that the write has reached, ends without an error.
pub proof fn lemma_written_graph_loads(
    nodes: Seq<MergedNodeView>,
    offsets: Seq<Option<FileOffset>>,
    item: LazyItem,
    pos: int,
    file: Seq<u8>,
    st: LoadState,
    max_loads: u16,
)
    requires
        nodes.len() == offsets.len(),
        fresh(offsets),
        in_memory(item, nodes.len() as int),
        forall|h: int|
            0 <= h < nodes.len() ==> node_in_memory(#[trigger] nodes[h], nodes.len() as int),
        lies_at(file, pos, lazy_layout(nodes, offsets, item, pos).bytes),
        pos + lazy_layout(nodes, offsets, item, pos).bytes.len() <= MAX_FILE_LEN,
    ensures
        ({
            let l = lazy_layout(nodes, offsets, item, pos);
            &&& holds_graph(file, nodes, l.offsets)
            &&& load_lazy(file, st, l.value, max_loads).0 is Ok
            &&& forall|h: int|
                0 <= h < nodes.len() && (#[trigger] l.offsets[h]) is Some ==> load_node(
                    file,
                    st,
                    l.offsets[h].unwrap(),
                    max_loads,
                ).0 is Ok
        }),
{
    let l = lazy_layout(nodes, offsets, item, pos);
    lemma_lazy_assigned(nodes, offsets, item, pos);
    lemma_lazy_faithful(nodes, offsets, item, pos, file);
    assert forall|h: int| 0 <= h < nodes.len() && (#[trigger] l.offsets[h]) is Some implies {
        &&& record_faithful(file, nodes[h], l.offsets[h].unwrap(), l.offsets)
        &&& node_in_memory(nodes[h], nodes.len() as int)
    } by {
        assert(offsets[h] is None);
    }
    lemma_link_leads(l.offsets, item);
    lemma_load_lazy_ok(file, nodes, l.offsets, st, l.value, max_loads);
    assert forall|h: int|
        0 <= h < nodes.len() && (#[trigger] l.offsets[h]) is Some implies load_node(
        file,
        st,
        l.offsets[h].unwrap(),
        max_loads,
    ).0 is Ok by {
        lemma_load_node_ok(file, nodes, l.offsets, st, h, max_loads);
    }
}

} // verus!
