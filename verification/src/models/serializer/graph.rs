//! A graph that is written and loaded again.
//!
//! A graph that was in memory only, written by one write and loaded from
//! the file that the write has left, is the graph that was written: every
//! node comes back with its version, its level and the place of its
//! property, with a parent and a child exactly where it had them, with its
//! neighbours in their order and with their similarities, and with its
//! versions under their keys. The write reaches every node once, whatever
//! cycles the graph has. A collection that was loaded and is written again
//! keeps its entries byte for byte.

use crate::models::cache_loader::{
    as_neighbors, as_versions, collection_slots, header_at, load_collection, load_node, EntryKind,
    LoadState,
};
use crate::models::common::LoadError;
use crate::models::custom_buffered_writer::MAX_FILE_LEN;
use crate::models::identity_collections::{keys_distinct, KeyView};
use crate::models::lazy_load::{EagerLazyItem, LazyItem, LazyItemId};
use crate::models::node_arena::{lazy_id, lazy_offset, ArenaState};
use crate::models::registry_laws::{consistent, item_at};
use crate::models::serializer::assigned::{lemma_entries_assigned, lemma_lazy_assigned};
use crate::models::serializer::decode::{chain_chunks, entry_lies, lemma_chunk_count, lies_at};
use crate::models::serializer::faithful::{
    collection_lies, lemma_collection_lies, lemma_entries_faithful, lemma_lazy_faithful,
    offset_in, record_faithful, settled,
};
use crate::models::serializer::layout::{
    chunks_layout, eager_entries, entries_layout, entry_layout, items_layout, keyed_entries,
    lazy_layout, lemma_chunks_layout, lemma_entries_layout, lemma_entry_layout,
    lemma_items_layout, lemma_lazy_layout, EntryView, Layout,
};
use crate::models::serializer::lazy_item_map::key_encodable;
use crate::models::serializer::loadable::{
    fresh, holds_graph, in_memory, lemma_load_neighbors_ok, lemma_load_versions_ok,
    lemma_written_graph_loads, node_in_memory,
};
use crate::models::serializer::packed::{lemma_entries_packed, lemma_lazy_packed, packed};
use crate::models::serializer::round_trip::{
    distinct, lemma_neighbors_round_trip, lemma_sound_offset, lemma_versions_round_trip,
    lemma_written_node_round_trip, neighbor_offsets, same_node,
};
use crate::models::serializer::write::lemma_chunks_start;
use crate::models::types::{FileOffset, Item, MergedNodeView};
use vstd::prelude::*;

verus! {

/// The neighbours of `set` are valid and name pairwise different nodes.
pub open spec fn names_apart(set: Seq<(LazyItemId, EagerLazyItem)>) -> bool {
    &&& forall|i: int| 0 <= i < set.len() ==> (#[trigger] set[i]).1.1 is Valid
    &&& forall|i: int, j: int|
        0 <= i < j < set.len() ==> (#[trigger] set[i]).1.1.data() != (#[trigger] set[j]).1.1.data()
}

/// Neighbours in memory that name pairwise different nodes have pairwise
/// different offsets once they are written into a packed table.
pub proof fn lemma_apart_distinct(
    table: Seq<Option<FileOffset>>,
    set: Seq<(LazyItemId, EagerLazyItem)>,
    end: int,
)
    requires
        packed(table, end),
        names_apart(set),
        forall|i: int|
            0 <= i < set.len() ==> in_memory((#[trigger] set[i]).1.1, table.len() as int)
                && table[set[i].1.1.data().unwrap() as int] is Some,
    ensures
        distinct(neighbor_offsets(table, set)),
{
    let targets = neighbor_offsets(table, set);
    assert forall|i: int, j: int| 0 <= i < j < targets.len() implies targets[i] != targets[j] by {
        let a = set[i].1.1.data().unwrap() as int;
        let b = set[j].1.1.data().unwrap() as int;
        assert(set[i].1.1 is Valid && set[j].1.1 is Valid);
        assert(a != b);
        assert(table[a] is Some && table[b] is Some);
        if a < b {
            assert(table[a].unwrap() != table[b].unwrap());
        } else {
            assert(table[b].unwrap() != table[a].unwrap());
        }
    }
}

/// A graph that was in memory only is written through `item` and loaded
/// again. Every node `h` that the write has reached, loaded from the offset
/// that the write gave it, comes back without an error and is the node
/// that was written: it has the version, the level and the place of the
/// property of `h`; it has a parent exactly when `h` has one, and a child
/// exactly when `h` has one; it has as many versions as `h`, under the
/// keys of `h`; and where the neighbours of `h` name different nodes, it
/// has as many neighbours as `h`, in the order of `h` and with the
/// similarities of `h`, bit for bit.
pub proof fn lemma_graph_round_trip(
    nodes: Seq<MergedNodeView>,
    offsets: Seq<Option<FileOffset>>,
    item: LazyItem,
    pos: int,
    file: Seq<u8>,
    h: Item,
    st: LoadState,
    max_loads: u16,
)
    requires
        nodes.len() == offsets.len(),
        0 <= pos,
        fresh(offsets),
        in_memory(item, nodes.len() as int),
        forall|k: int|
            0 <= k < nodes.len() ==> node_in_memory(#[trigger] nodes[k], nodes.len() as int),
        keys_distinct(nodes[h as int].versions),
        lies_at(file, pos, lazy_layout(nodes, offsets, item, pos).bytes),
        pos + lazy_layout(nodes, offsets, item, pos).bytes.len() <= MAX_FILE_LEN,
        h < nodes.len(),
        lazy_layout(nodes, offsets, item, pos).offsets[h as int] is Some,
        consistent(file, st),
        load_node(
            file,
            st,
            lazy_layout(nodes, offsets, item, pos).offsets[h as int].unwrap(),
            max_loads,
        ).1.nodes.len() <= usize::MAX,
    ensures
        ({
            let l = lazy_layout(nodes, offsets, item, pos);
            let r = load_node(file, st, l.offsets[h as int].unwrap(), max_loads);
            let node = nodes[h as int];
            let loaded = r.0->Ok_0;
            &&& r.0 is Ok
            &&& consistent(file, r.1)
            &&& same_node(node, l.offsets, loaded)
            &&& (loaded.parent is Valid) == (node.parent is Valid)
            &&& (loaded.child is Valid) == (node.child is Valid)
            &&& loaded.versions.len() == node.versions.len()
            &&& forall|i: int|
                0 <= i < node.versions.len() ==> (#[trigger] loaded.versions[i]).0
                    == node.versions[i].0
            &&& names_apart(node.neighbors) ==> {
                &&& loaded.neighbors.len() == node.neighbors.len()
                &&& forall|i: int|
                    0 <= i < node.neighbors.len() ==> (#[trigger] loaded.neighbors[i]).1.0
                        == node.neighbors[i].1.0
            }
        }),
{
    let l = lazy_layout(nodes, offsets, item, pos);
    let node = nodes[h as int];
    lemma_written_graph_loads(nodes, offsets, item, pos, file, st, max_loads);
    lemma_written_node_round_trip(nodes, offsets, item, pos, file, h, st, max_loads);
    lemma_lazy_assigned(nodes, offsets, item, pos);
    lemma_sound_offset(offsets, l.offsets, pos, l.bytes.len() as int, node.parent);
    lemma_sound_offset(offsets, l.offsets, pos, l.bytes.len() as int, node.child);
    lemma_lazy_packed(nodes, offsets, item, pos);
    if names_apart(node.neighbors) {
        assert forall|i: int| 0 <= i < node.neighbors.len() implies in_memory(
            (#[trigger] node.neighbors[i]).1.1,
            l.offsets.len() as int,
        ) && l.offsets[node.neighbors[i].1.1.data().unwrap() as int] is Some by {
            let at = l.offsets[h as int].unwrap();
            let record = header_at(file, at as int);
            let slots = collection_slots(file, record.neighbors)->Ok_0;
            assert(record_faithful(file, node, at, l.offsets));
            assert(collection_lies(
                file,
                record.neighbors,
                eager_entries(node.neighbors),
                l.offsets,
            ));
            assert(eager_entries(node.neighbors)[i].item == node.neighbors[i].1.1);
            let slot = slots[i];
            assert(settled(l.offsets, eager_entries(node.neighbors)[i].item));
        }
        lemma_apart_distinct(l.offsets, node.neighbors, pos + l.bytes.len());
    }
}

/// The file that a write of a collection of a graph in memory has left
/// holds the graph.
proof fn lemma_collection_holds(
    nodes: Seq<MergedNodeView>,
    offsets: Seq<Option<FileOffset>>,
    entries: Seq<EntryView>,
    pos: int,
    file: Seq<u8>,
)
    requires
        nodes.len() == offsets.len(),
        0 <= pos,
        fresh(offsets),
        forall|k: int|
            0 <= k < nodes.len() ==> node_in_memory(#[trigger] nodes[k], nodes.len() as int),
        lies_at(file, pos, entries_layout(nodes, offsets, entries, false, pos).bytes),
        pos + entries_layout(nodes, offsets, entries, false, pos).bytes.len() <= MAX_FILE_LEN,
    ensures
        holds_graph(file, nodes, entries_layout(nodes, offsets, entries, false, pos).offsets),
{
    let l = entries_layout(nodes, offsets, entries, false, pos);
    lemma_entries_assigned(nodes, offsets, entries, false, pos);
    lemma_entries_faithful(nodes, offsets, entries, false, pos, file);
    assert forall|h: int| 0 <= h < nodes.len() && (#[trigger] l.offsets[h]) is Some implies {
        &&& record_faithful(file, nodes[h], l.offsets[h].unwrap(), l.offsets)
        &&& node_in_memory(nodes[h], nodes.len() as int)
    } by {
        assert(offsets[h] is None);
    }
}

/// A map of a graph that was in memory only is written and loaded again.
/// The load ends without an error and gives a map with as many entries,
/// under the same keys in the same order, each item an item for the
/// offset that the write gave its node.
pub proof fn lemma_map_round_trip(
    nodes: Seq<MergedNodeView>,
    offsets: Seq<Option<FileOffset>>,
    map: Seq<(KeyView, LazyItem)>,
    pos: int,
    file: Seq<u8>,
    st: LoadState,
    max_loads: u16,
)
    requires
        nodes.len() == offsets.len(),
        0 <= pos,
        fresh(offsets),
        forall|k: int|
            0 <= k < nodes.len() ==> node_in_memory(#[trigger] nodes[k], nodes.len() as int),
        forall|i: int|
            0 <= i < map.len() ==> in_memory((#[trigger] map[i]).1, nodes.len() as int)
                && key_encodable(map[i].0),
        keys_distinct(map),
        lies_at(file, pos, entries_layout(nodes, offsets, keyed_entries(map), false, pos).bytes),
        pos + entries_layout(nodes, offsets, keyed_entries(map), false, pos).bytes.len()
            <= MAX_FILE_LEN,
        consistent(file, st),
        load_collection(
            file,
            st,
            entries_layout(nodes, offsets, keyed_entries(map), false, pos).value,
            EntryKind::Keyed,
            max_loads,
        ).1.nodes.len() <= usize::MAX,
    ensures
        ({
            let l = entries_layout(nodes, offsets, keyed_entries(map), false, pos);
            let r = load_collection(file, st, l.value, EntryKind::Keyed, max_loads);
            let loaded = as_versions(r.0->Ok_0);
            &&& r.0 is Ok
            &&& consistent(file, r.1)
            &&& loaded.len() == map.len()
            &&& forall|i: int|
                0 <= i < map.len() ==> {
                    &&& (#[trigger] loaded[i]).0 == map[i].0
                    &&& item_at(loaded[i].1, offset_in(l.offsets, map[i].1))
                }
        }),
{
    let entries = keyed_entries(map);
    let l = entries_layout(nodes, offsets, entries, false, pos);
    lemma_collection_holds(nodes, offsets, entries, pos, file);
    lemma_collection_lies(nodes, offsets, entries, pos, file);
    let slots = collection_slots(file, l.value)->Ok_0;
    assert forall|i: int| 0 <= i < map.len() implies {
        &&& entry_lies(
            file,
            #[trigger] slots[i],
            keyed_entries(map)[i].prefix,
            offset_in(l.offsets, map[i].1),
        )
        &&& settled(l.offsets, map[i].1)
    } by {
        assert(entries[i].item == map[i].1);
    }
    lemma_load_versions_ok(file, nodes, l.offsets, st, map, slots, 0, max_loads);
    assert(slots.subrange(0, slots.len() as int) =~= slots);
    lemma_versions_round_trip(nodes, offsets, map, pos, file, st, max_loads);
}

/// A set of neighbours of a graph that was in memory only is written and
/// loaded again, however many chunks it fills. The load ends without an
/// error and gives the entries in the order of insertion, each with the
/// similarity that was written, bit for bit, and with an item for the
/// offset that the write gave its node. Where the neighbours name
/// different nodes, the set that is loaded has as many entries as the one
/// written, and each entry has the identity that the entry written has
/// once the write is over: the offset of its node, which is never the
/// absent offset.
pub proof fn lemma_set_round_trip(
    nodes: Seq<MergedNodeView>,
    offsets: Seq<Option<FileOffset>>,
    set: Seq<(LazyItemId, EagerLazyItem)>,
    pos: int,
    file: Seq<u8>,
    st: LoadState,
    max_loads: u16,
)
    requires
        nodes.len() == offsets.len(),
        0 <= pos,
        fresh(offsets),
        forall|k: int|
            0 <= k < nodes.len() ==> node_in_memory(#[trigger] nodes[k], nodes.len() as int),
        forall|i: int|
            0 <= i < set.len() ==> in_memory((#[trigger] set[i]).1.1, nodes.len() as int),
        lies_at(file, pos, entries_layout(nodes, offsets, eager_entries(set), false, pos).bytes),
        pos + entries_layout(nodes, offsets, eager_entries(set), false, pos).bytes.len()
            <= MAX_FILE_LEN,
        consistent(file, st),
        load_collection(
            file,
            st,
            entries_layout(nodes, offsets, eager_entries(set), false, pos).value,
            EntryKind::Eager,
            max_loads,
        ).1.nodes.len() <= usize::MAX,
    ensures
        ({
            let l = entries_layout(nodes, offsets, eager_entries(set), false, pos);
            let r = load_collection(file, st, l.value, EntryKind::Eager, max_loads);
            let entries = r.0->Ok_0;
            let loaded = as_neighbors(entries);
            &&& r.0 is Ok
            &&& consistent(file, r.1)
            &&& entries.len() == set.len()
            &&& forall|i: int|
                0 <= i < set.len() ==> {
                    &&& (#[trigger] entries[i]).similarity == set[i].1.0
                    &&& item_at(entries[i].item, offset_in(l.offsets, set[i].1.1))
                }
            &&& names_apart(set) ==> {
                &&& loaded.len() == set.len()
                &&& forall|i: int|
                    0 <= i < set.len() ==> {
                        &&& (#[trigger] loaded[i]).0 == LazyItemId::Persist(
                            offset_in(l.offsets, set[i].1.1),
                        )
                        &&& loaded[i].0 == lazy_id(
                            ArenaState { nodes, offsets: l.offsets },
                            set[i].1.1,
                        )
                        &&& offset_in(l.offsets, set[i].1.1) != u32::MAX
                        &&& loaded[i].1.0 == set[i].1.0
                        &&& item_at(loaded[i].1.1, offset_in(l.offsets, set[i].1.1))
                    }
            }
        }),
{
    let entries = eager_entries(set);
    let l = entries_layout(nodes, offsets, entries, false, pos);
    lemma_collection_holds(nodes, offsets, entries, pos, file);
    lemma_collection_lies(nodes, offsets, entries, pos, file);
    let slots = collection_slots(file, l.value)->Ok_0;
    assert forall|i: int| 0 <= i < set.len() implies {
        &&& entry_lies(
            file,
            #[trigger] slots[i],
            eager_entries(set)[i].prefix,
            offset_in(l.offsets, set[i].1.1),
        )
        &&& settled(l.offsets, set[i].1.1)
    } by {
        assert(entries[i].item == set[i].1.1);
    }
    lemma_load_neighbors_ok(file, nodes, l.offsets, st, set, slots, 0, max_loads);
    assert(slots.subrange(0, slots.len() as int) =~= slots);
    lemma_neighbors_round_trip(nodes, offsets, set, pos, file, st, max_loads);
    let targets = neighbor_offsets(l.offsets, set);
    assert forall|i: int| 0 <= i < set.len() implies offset_in(l.offsets, set[i].1.1)
        == #[trigger] targets[i] by {}
    if names_apart(set) {
        lemma_entries_packed(nodes, offsets, entries, false, pos);
        assert forall|i: int| 0 <= i < set.len() implies in_memory(
            (#[trigger] set[i]).1.1,
            l.offsets.len() as int,
        ) && l.offsets[set[i].1.1.data().unwrap() as int] is Some by {
            let slot = slots[i];
            assert(settled(l.offsets, set[i].1.1));
        }
        lemma_apart_distinct(l.offsets, set, pos + l.bytes.len());
        lemma_entries_assigned(nodes, offsets, entries, false, pos);
        assert forall|i: int| 0 <= i < set.len() implies offset_in(
            l.offsets,
            (#[trigger] set[i]).1.1,
        ) != u32::MAX by {
            let h = set[i].1.1.data().unwrap() as int;
            assert(offsets[h] is None);
            assert(l.offsets[h] is Some);
        }
    }
}

/// A graph that was in memory only is written through `item`, with
/// cycles or without. Every node that the write reaches is written once:
/// it gets one offset, its record lies there and names its links by their
/// offsets, and no two records overlap. A link to a node that was reached
/// before is written as the offset of that node and nothing more.
pub proof fn lemma_written_once(
    nodes: Seq<MergedNodeView>,
    offsets: Seq<Option<FileOffset>>,
    item: LazyItem,
    pos: int,
    file: Seq<u8>,
)
    requires
        nodes.len() == offsets.len(),
        0 <= pos,
        fresh(offsets),
        lies_at(file, pos, lazy_layout(nodes, offsets, item, pos).bytes),
        pos + lazy_layout(nodes, offsets, item, pos).bytes.len() <= MAX_FILE_LEN,
    ensures
        ({
            let l = lazy_layout(nodes, offsets, item, pos);
            &&& packed(l.offsets, pos + l.bytes.len())
            &&& forall|h: int|
                0 <= h < nodes.len() && (#[trigger] l.offsets[h]) is Some ==> {
                    &&& pos <= l.offsets[h].unwrap()
                    &&& record_faithful(file, nodes[h], l.offsets[h].unwrap(), l.offsets)
                }
            &&& forall|link: LazyItem, at: int|
                lazy_offset(l.offsets, link) is Some ==> #[trigger] lazy_layout(
                    nodes,
                    l.offsets,
                    link,
                    at,
                ) == (Layout {
                    bytes: Seq::empty(),
                    offsets: l.offsets,
                    value: lazy_offset(l.offsets, link).unwrap(),
                })
        }),
{
    let l = lazy_layout(nodes, offsets, item, pos);
    lemma_lazy_assigned(nodes, offsets, item, pos);
    lemma_lazy_faithful(nodes, offsets, item, pos, file);
    lemma_lazy_packed(nodes, offsets, item, pos);
    assert forall|h: int| 0 <= h < nodes.len() && (#[trigger] l.offsets[h]) is Some implies {
        &&& pos <= l.offsets[h].unwrap()
        &&& record_faithful(file, nodes[h], l.offsets[h].unwrap(), l.offsets)
    } by {
        assert(offsets[h] is None);
    }
    assert forall|link: LazyItem, at: int|
        lazy_offset(l.offsets, link) is Some implies #[trigger] lazy_layout(
        nodes,
        l.offsets,
        link,
        at,
    ) == (Layout {
        bytes: Seq::empty(),
        offsets: l.offsets,
        value: lazy_offset(l.offsets, link).unwrap(),
    }) by {
        lemma_lazy_layout(nodes, l.offsets, link, at);
    }
}

/// Every item of `entries` carries an offset, as an item that was loaded
/// does.
pub open spec fn all_persisted(entries: Seq<EntryView>) -> bool {
    forall|i: int| 0 <= i < entries.len() ==> (#[trigger] entries[i]).item.offset() is Some
}

/// The entries of a chunk whose items carry offsets are written without
/// writing a node.
proof fn lemma_items_quiet(
    nodes: Seq<MergedNodeView>,
    offsets: Seq<Option<FileOffset>>,
    items: Seq<EntryView>,
    pos: int,
)
    requires
        all_persisted(items),
    ensures
        items_layout(nodes, offsets, items, false, pos).offsets == offsets,
    decreases items.len(),
{
    lemma_items_layout(nodes, offsets, items, false, pos);
    if items.len() > 0 {
        let first = entry_layout(nodes, offsets, items[0], false, pos);
        lemma_entry_layout(nodes, offsets, items[0], false, pos);
        lemma_lazy_layout(nodes, offsets, items[0].item, pos + items[0].prefix.len() + 4);
        assert(first.offsets == offsets);
        assert forall|i: int| 0 <= i < items.drop_first().len() implies (
        #[trigger] items.drop_first()[i]).item.offset() is Some by {
            assert(items.drop_first()[i] == items[i + 1]);
        }
        lemma_items_quiet(nodes, offsets, items.drop_first(), pos + first.bytes.len());
    }
}

/// A chain of chunks whose items carry offsets is written without writing
/// a node.
proof fn lemma_chunks_quiet(
    nodes: Seq<MergedNodeView>,
    offsets: Seq<Option<FileOffset>>,
    entries: Seq<EntryView>,
    pos: int,
)
    requires
        all_persisted(entries),
    ensures
        chunks_layout(nodes, offsets, entries, false, pos).offsets == offsets,
    decreases entries.len(),
{
    lemma_chunks_layout(nodes, offsets, entries, false, pos);
    if entries.len() > 0 {
        let k = if entries.len() < 5 {
            entries.len() as int
        } else {
            5
        };
        let mine = entries.subrange(0, k);
        let rest = entries.subrange(k, entries.len() as int);
        let body = items_layout(nodes, offsets, mine, false, pos + 24);
        assert forall|i: int| 0 <= i < mine.len() implies (#[trigger] mine[i]).item.offset()
            is Some by {
            assert(mine[i] == entries[i]);
        }
        assert forall|i: int| 0 <= i < rest.len() implies (#[trigger] rest[i]).item.offset()
            is Some by {
            assert(rest[i] == entries[i + k]);
        }
        lemma_items_quiet(nodes, offsets, mine, pos + 24);
        lemma_chunks_quiet(nodes, offsets, rest, pos + 24 + body.bytes.len());
    }
}

/// A collection that was loaded is written again. Its items carry their
/// offsets, so no node is written. The collection fills as many chunks as
/// its entries take, five to a chunk, and every entry is written byte for
/// byte as it lies in the file that it was loaded from: its similarity or
/// its key, and behind it the offset of its node. What differs from that
/// file is where the chunks and the entries lie.
pub proof fn lemma_collection_kept(
    nodes: Seq<MergedNodeView>,
    offsets: Seq<Option<FileOffset>>,
    entries: Seq<EntryView>,
    pos: int,
    file: Seq<u8>,
)
    requires
        nodes.len() == offsets.len(),
        0 <= pos,
        all_persisted(entries),
        lies_at(file, pos, entries_layout(nodes, offsets, entries, false, pos).bytes),
        pos + entries_layout(nodes, offsets, entries, false, pos).bytes.len() <= MAX_FILE_LEN,
    ensures
        ({
            let l = entries_layout(nodes, offsets, entries, false, pos);
            &&& l.offsets == offsets
            &&& collection_slots(file, l.value) == Ok::<Seq<u32>, LoadError>(l.slots)
            &&& l.slots.len() == entries.len()
            &&& forall|i: int|
                0 <= i < entries.len() ==> entry_lies(
                    file,
                    #[trigger] l.slots[i],
                    entries[i].prefix,
                    entries[i].item.offset().unwrap(),
                )
            &&& entries.len() > 0 ==> chain_chunks(file, l.value) == (entries.len() + 4) / 5
        }),
{
    let l = entries_layout(nodes, offsets, entries, false, pos);
    lemma_entries_layout(nodes, offsets, entries, false, pos);
    lemma_collection_lies(nodes, offsets, entries, pos, file);
    assert forall|i: int| 0 <= i < entries.len() implies entry_lies(
        file,
        #[trigger] l.slots[i],
        entries[i].prefix,
        entries[i].item.offset().unwrap(),
    ) by {
        assert(offset_in(l.offsets, entries[i].item) == entries[i].item.offset().unwrap());
    }
    if entries.len() > 0 {
        lemma_chunks_quiet(nodes, offsets, entries, pos);
        lemma_chunk_count(nodes, offsets, entries, pos, file);
        lemma_chunks_start(nodes, offsets, entries, false, pos);
    }
}

} // verus!
