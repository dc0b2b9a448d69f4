//! What was written is what is loaded.
//!
//! The lemmas here start from a record that is a faithful image of a node
//! and say what a load of it gives. With the lemmas that say that a write
//! leaves faithful records, they say what a round trip keeps.

use crate::models::cache_loader::{
    as_neighbors, as_versions, collection_slots, header_at, lemma_load_node, load_collection,
    load_entries, load_lazy, load_node, persisted_id, EntryKind, LoadState, LoadedEntryView,
};
use crate::models::common::LoadError;
use crate::models::custom_buffered_writer::MAX_FILE_LEN;
use crate::models::endian::{le16, le32, lemma_le_round_trip, lemma_read32_of};
use crate::models::identity_collections::{keys_distinct, lemma_inserted_all_distinct, KeyView};
use crate::models::lazy_load::{EagerLazyItem, LazyItem, LazyItemId};
use crate::models::registry_laws::{
    consistent, entry_reads, item_at, lemma_cycle_returns, lemma_load_entries_extends,
    lemma_load_entries_keeps, lemma_load_lazy_extends, lemma_load_lazy_keeps, lemma_load_node_keeps,
    node_reads, on_disk, persisted,
};
use crate::models::serializer::assigned::{
    grown, lemma_lazy_assigned, lemma_node_assigned, lemma_node_record_len,
};
use crate::models::serializer::decode::{entry_lies, lies_at};
use crate::models::serializer::faithful::{
    collection_lies, lemma_collection_lies, lemma_lazy_faithful, lemma_node_faithful, offset_in,
    record_faithful, settled,
};
use crate::models::serializer::layout::{
    carried, eager_entries, entries_layout, key_bytes, keyed_entries, lazy_layout,
    lemma_entries_layout, lemma_lazy_layout, lemma_node_layout, node_layout, node_record,
    prop_fields,
};
use crate::models::serializer::lazy_item_map::{key_encodable, lemma_key_round_trip};
use crate::models::types::{FileOffset, Item, MergedNodeView, PropState};
use vstd::prelude::*;

verus! {

/// No offset occurs twice in `targets`.
pub open spec fn distinct(targets: Seq<u32>) -> bool {
    forall|i: int, j: int| 0 <= i < j < targets.len() ==> targets[i] != targets[j]
}

/// The offset that stands for each neighbour of `set` once the nodes have
/// the offsets of `table`.
pub open spec fn neighbor_offsets(
    table: Seq<Option<FileOffset>>,
    set: Seq<(LazyItemId, EagerLazyItem)>,
) -> Seq<u32> {
    Seq::new(set.len(), |i: int| offset_in(table, set[i].1.1))
}

/// The neighbours that a load gives when each entry is loaded from its own
/// offset: the similarities as they were, each under the offset of its node.
pub open spec fn neighbors_read(
    set: Seq<(LazyItemId, EagerLazyItem)>,
    targets: Seq<u32>,
    loaded: Seq<LoadedEntryView>,
) -> Seq<(LazyItemId, EagerLazyItem)> {
    Seq::new(
        set.len(),
        |i: int| (LazyItemId::Persist(targets[i]), EagerLazyItem(set[i].1.0, loaded[i].item)),
    )
}

/// The versions that a load gives: the keys as they were.
pub open spec fn versions_read(map: Seq<(KeyView, LazyItem)>, loaded: Seq<LoadedEntryView>) -> Seq<
    (KeyView, LazyItem),
> {
    Seq::new(map.len(), |i: int| (map[i].0, loaded[i].item))
}

/// A set of neighbours that lies in a file is loaded entry for entry, in
/// the order of insertion, however many chunks it fills: the similarity of
/// each entry is the one that was written, and its item is an item for the
/// offset of its node. Where these offsets differ from each other, the set
/// that is loaded has as many entries as the one written.
pub proof fn lemma_neighbors_loaded(
    file: Seq<u8>,
    offset: u32,
    set: Seq<(LazyItemId, EagerLazyItem)>,
    table: Seq<Option<FileOffset>>,
    st: LoadState,
    max_loads: u16,
)
    requires
        collection_lies(file, offset, eager_entries(set), table),
        consistent(file, st),
        load_collection(file, st, offset, EntryKind::Eager, max_loads).0 is Ok,
        load_collection(file, st, offset, EntryKind::Eager, max_loads).1.nodes.len()
            <= usize::MAX,
    ensures
        ({
            let r = load_collection(file, st, offset, EntryKind::Eager, max_loads);
            let loaded = r.0->Ok_0;
            let targets = neighbor_offsets(table, set);
            &&& consistent(file, r.1)
            &&& loaded.len() == set.len()
            &&& forall|i: int|
                0 <= i < set.len() ==> {
                    &&& (#[trigger] loaded[i]).similarity == set[i].1.0
                    &&& item_at(loaded[i].item, targets[i])
                }
            &&& distinct(targets) ==> as_neighbors(loaded) == neighbors_read(set, targets, loaded)
        }),
{
    lemma_le_round_trip();
    let entries = eager_entries(set);
    let slots = collection_slots(file, offset)->Ok_0;
    let r = load_collection(file, st, offset, EntryKind::Eager, max_loads);
    let loaded = r.0->Ok_0;
    let targets = neighbor_offsets(table, set);
    lemma_load_entries_keeps(file, st, slots, EntryKind::Eager, max_loads);
    assert forall|i: int| 0 <= i < set.len() implies {
        &&& (#[trigger] loaded[i]).similarity == set[i].1.0
        &&& item_at(loaded[i].item, targets[i])
    } by {
        assert(entry_reads(file, slots[i], EntryKind::Eager, loaded[i]));
        assert(entry_lies(file, slots[i], entries[i].prefix, offset_in(table, entries[i].item)));
        assert(entries[i].prefix == le32(set[i].1.0));
        lemma_read32_of(file, slots[i] as int, set[i].1.0);
    }
    if distinct(targets) {
        let pairs = loaded.map_values(
            |e: LoadedEntryView| (persisted_id(e.item), EagerLazyItem(e.similarity, e.item)),
        );
        let want = neighbors_read(set, targets, loaded);
        assert(pairs =~= want) by {
            assert forall|i: int| 0 <= i < set.len() implies pairs[i] == want[i] by {
                assert(item_at(loaded[i].item, targets[i]));
            }
        }
        assert(keys_distinct(Seq::<(LazyItemId, EagerLazyItem)>::empty() + want)) by {
            assert(Seq::<(LazyItemId, EagerLazyItem)>::empty() + want =~= want);
            assert forall|i: int, j: int| 0 <= i < j < want.len() implies (#[trigger] want[i]).0
                != (#[trigger] want[j]).0 by {
                assert(targets[i] != targets[j]);
            }
        }
        lemma_inserted_all_distinct(Seq::<(LazyItemId, EagerLazyItem)>::empty(), want);
        assert(Seq::<(LazyItemId, EagerLazyItem)>::empty() + want =~= want);
    }
}

/// A map that lies in a file is loaded entry for entry, in the order of
/// insertion: the key of each entry is the one that was written, where it
/// can be encoded, and its item is an item for the offset of its node. A
/// map whose keys differ from each other is loaded with as many entries
/// as it had.
pub proof fn lemma_versions_loaded(
    file: Seq<u8>,
    offset: u32,
    map: Seq<(KeyView, LazyItem)>,
    table: Seq<Option<FileOffset>>,
    st: LoadState,
    max_loads: u16,
)
    requires
        forall|i: int| 0 <= i < map.len() ==> key_encodable((#[trigger] map[i]).0),
        collection_lies(file, offset, keyed_entries(map), table),
        consistent(file, st),
        load_collection(file, st, offset, EntryKind::Keyed, max_loads).0 is Ok,
        load_collection(file, st, offset, EntryKind::Keyed, max_loads).1.nodes.len()
            <= usize::MAX,
    ensures
        ({
            let r = load_collection(file, st, offset, EntryKind::Keyed, max_loads);
            let loaded = r.0->Ok_0;
            &&& consistent(file, r.1)
            &&& loaded.len() == map.len()
            &&& forall|i: int|
                0 <= i < map.len() ==> {
                    &&& (#[trigger] loaded[i]).key == map[i].0
                    &&& item_at(loaded[i].item, offset_in(table, map[i].1))
                }
            &&& keys_distinct(map) ==> as_versions(loaded) == versions_read(map, loaded)
        }),
{
    lemma_le_round_trip();
    let entries = keyed_entries(map);
    let slots = collection_slots(file, offset)->Ok_0;
    let r = load_collection(file, st, offset, EntryKind::Keyed, max_loads);
    let loaded = r.0->Ok_0;
    lemma_load_entries_keeps(file, st, slots, EntryKind::Keyed, max_loads);
    assert forall|i: int| 0 <= i < map.len() implies {
        &&& (#[trigger] loaded[i]).key == map[i].0
        &&& item_at(loaded[i].item, offset_in(table, map[i].1))
    } by {
        assert(entry_reads(file, slots[i], EntryKind::Keyed, loaded[i]));
        assert(entry_lies(file, slots[i], entries[i].prefix, offset_in(table, entries[i].item)));
        assert(entries[i].prefix == key_bytes(map[i].0));
        lemma_key_round_trip(file, slots[i], map[i].0);
    }
    if keys_distinct(map) {
        let pairs = loaded.map_values(|e: LoadedEntryView| (e.key, e.item));
        let want = versions_read(map, loaded);
        assert(pairs =~= want);
        assert(keys_distinct(Seq::<(KeyView, LazyItem)>::empty() + want)) by {
            assert(Seq::<(KeyView, LazyItem)>::empty() + want =~= want);
            assert forall|i: int, j: int| 0 <= i < j < want.len() implies (#[trigger] want[i]).0
                != (#[trigger] want[j]).0 by {
                assert(map[i].0 != map[j].0);
            }
        }
        lemma_inserted_all_distinct(Seq::<(KeyView, LazyItem)>::empty(), want);
        assert(Seq::<(KeyView, LazyItem)>::empty() + want =~= want);
    }
}

/// What a load of a faithful record gives is the node, as far as a file
/// holds it: `loaded` has the version and the level of `node`, its
/// property is pending at the place that was written, and it is in step
/// with the file. Its parent and its child are items for the offsets that
/// the parent and the child of `node` have in `table`, and invalid where
/// they have none. Its neighbours come in the order of insertion with the
/// similarities of `node`, each under the offset of its node, and where
/// these offsets differ from each other there are as many as `node` has.
/// Its versions come under the keys of `node`, and where the keys differ
/// from each other there are as many as `node` has.
pub open spec fn same_node(
    node: MergedNodeView,
    table: Seq<Option<FileOffset>>,
    loaded: MergedNodeView,
) -> bool {
    &&& loaded.version_id == node.version_id
    &&& loaded.hnsw_level == node.hnsw_level
    &&& loaded.prop == PropState::Pending(prop_fields(node.prop))
    &&& !loaded.persist_flag
    &&& item_at(loaded.parent, offset_in(table, node.parent))
    &&& item_at(loaded.child, offset_in(table, node.child))
    &&& distinct(neighbor_offsets(table, node.neighbors)) ==> {
        &&& loaded.neighbors.len() == node.neighbors.len()
        &&& forall|i: int|
            0 <= i < node.neighbors.len() ==> {
                &&& (#[trigger] loaded.neighbors[i]).0 == LazyItemId::Persist(
                    neighbor_offsets(table, node.neighbors)[i],
                )
                &&& loaded.neighbors[i].1.0 == node.neighbors[i].1.0
                &&& item_at(loaded.neighbors[i].1.1, neighbor_offsets(table, node.neighbors)[i])
            }
    }
    &&& keys_distinct(node.versions) ==> {
        &&& loaded.versions.len() == node.versions.len()
        &&& forall|i: int|
            0 <= i < node.versions.len() ==> {
                &&& (#[trigger] loaded.versions[i]).0 == node.versions[i].0
                &&& item_at(loaded.versions[i].1, offset_in(table, node.versions[i].1))
            }
    }
}

/// A load of a faithful record gives the node.
pub proof fn lemma_faithful_loaded(
    file: Seq<u8>,
    node: MergedNodeView,
    at: u32,
    table: Seq<Option<FileOffset>>,
    st: LoadState,
    max_loads: u16,
)
    requires
        record_faithful(file, node, at, table),
        forall|i: int|
            0 <= i < node.versions.len() ==> key_encodable((#[trigger] node.versions[i]).0),
        consistent(file, st),
        load_node(file, st, at, max_loads).0 is Ok,
        load_node(file, st, at, max_loads).1.nodes.len() <= usize::MAX,
    ensures
        consistent(file, load_node(file, st, at, max_loads).1),
        same_node(node, table, load_node(file, st, at, max_loads).0->Ok_0),
{
    let h = header_at(file, at as int);
    lemma_load_node(file, st, at, max_loads);
    lemma_load_node_keeps(file, st, at, max_loads);
    let r = load_node(file, st, at, max_loads);
    let loaded = r.0->Ok_0;
    assert(node_reads(file, at, loaded));
    let p = load_lazy(file, st, h.parent, max_loads);
    let c = load_lazy(file, p.1, h.child, max_loads);
    let neighbor_slots = collection_slots(file, h.neighbors);
    let n = load_entries(file, c.1, neighbor_slots.unwrap(), EntryKind::Eager, max_loads);
    let version_slots = collection_slots(file, h.versions);
    let v = load_entries(file, n.1, version_slots.unwrap(), EntryKind::Keyed, max_loads);
    lemma_load_lazy_extends(file, st, h.parent, max_loads);
    lemma_load_lazy_extends(file, p.1, h.child, max_loads);
    lemma_load_entries_extends(file, c.1, neighbor_slots.unwrap(), EntryKind::Eager, max_loads);
    lemma_load_entries_extends(file, n.1, version_slots.unwrap(), EntryKind::Keyed, max_loads);
    lemma_load_lazy_keeps(file, st, h.parent, max_loads);
    lemma_load_lazy_keeps(file, p.1, h.child, max_loads);
    lemma_neighbors_loaded(file, h.neighbors, node.neighbors, table, c.1, max_loads);
    lemma_versions_loaded(file, h.versions, node.versions, table, n.1, max_loads);
    let targets = neighbor_offsets(table, node.neighbors);
    if keys_distinct(node.versions) {
        assert forall|i: int| 0 <= i < node.versions.len() implies {
            &&& (#[trigger] loaded.versions[i]).0 == node.versions[i].0
            &&& item_at(loaded.versions[i].1, offset_in(table, node.versions[i].1))
        } by {
            assert(v.0->Ok_0[i].key == node.versions[i].0);
        }
    }
    if distinct(targets) {
        assert forall|i: int| 0 <= i < node.neighbors.len() implies {
            &&& (#[trigger] loaded.neighbors[i]).0 == LazyItemId::Persist(targets[i])
            &&& loaded.neighbors[i].1.0 == node.neighbors[i].1.0
            &&& item_at(loaded.neighbors[i].1.1, targets[i])
        } by {
            assert(n.0->Ok_0[i].similarity == node.neighbors[i].1.0);
        }
    }
}

/// A node that was written and is loaded from where it was written is the
/// node that was written, with the offsets that the write has left.
pub proof fn lemma_node_round_trip(
    nodes: Seq<MergedNodeView>,
    offsets: Seq<Option<FileOffset>>,
    node: MergedNodeView,
    pos: int,
    file: Seq<u8>,
    st: LoadState,
    max_loads: u16,
)
    requires
        nodes.len() == offsets.len(),
        forall|i: int|
            0 <= i < node.versions.len() ==> key_encodable((#[trigger] node.versions[i]).0),
        lies_at(file, pos, node_layout(nodes, offsets, node, pos).bytes),
        pos + node_layout(nodes, offsets, node, pos).bytes.len() <= MAX_FILE_LEN,
        consistent(file, st),
        load_node(file, st, pos as u32, max_loads).0 is Ok,
        load_node(file, st, pos as u32, max_loads).1.nodes.len() <= usize::MAX,
    ensures
        ({
            let l = node_layout(nodes, offsets, node, pos);
            let r = load_node(file, st, pos as u32, max_loads);
            &&& consistent(file, r.1)
            &&& grown(offsets, l.offsets, pos, l.bytes.len() as int)
            &&& settled(l.offsets, node.parent)
            &&& settled(l.offsets, node.child)
            &&& same_node(node, l.offsets, r.0->Ok_0)
        }),
{
    lemma_node_assigned(nodes, offsets, node, pos);
    lemma_node_faithful(nodes, offsets, node, pos, file);
    lemma_faithful_loaded(
        file,
        node,
        pos as u32,
        node_layout(nodes, offsets, node, pos).offsets,
        st,
        max_loads,
    );
}

/// Every node that a write reached for the first time, and that is loaded
/// from the offset that the write gave it, is the node that was written,
/// with the offsets that the write has left.
pub proof fn lemma_written_node_round_trip(
    nodes: Seq<MergedNodeView>,
    offsets: Seq<Option<FileOffset>>,
    item: LazyItem,
    pos: int,
    file: Seq<u8>,
    h: Item,
    st: LoadState,
    max_loads: u16,
)
    requires
        nodes.len() == offsets.len(),
        h < nodes.len(),
        offsets[h as int] is None,
        lazy_layout(nodes, offsets, item, pos).offsets[h as int] is Some,
        forall|i: int|
            0 <= i < nodes[h as int].versions.len() ==> key_encodable(
                (#[trigger] nodes[h as int].versions[i]).0,
            ),
        lies_at(file, pos, lazy_layout(nodes, offsets, item, pos).bytes),
        pos + lazy_layout(nodes, offsets, item, pos).bytes.len() <= MAX_FILE_LEN,
        consistent(file, st),
        load_node(
            file,
            st,
            lazy_layout(nodes, offsets, item, pos).offsets[h as int].unwrap(),
            max_loads,
        ).0 is Ok,
        load_node(
            file,
            st,
            lazy_layout(nodes, offsets, item, pos).offsets[h as int].unwrap(),
            max_loads,
        ).1.nodes.len() <= usize::MAX,
    ensures
        ({
            let l = lazy_layout(nodes, offsets, item, pos);
            let r = load_node(file, st, l.offsets[h as int].unwrap(), max_loads);
            &&& consistent(file, r.1)
            &&& grown(offsets, l.offsets, pos, l.bytes.len() as int)
            &&& settled(l.offsets, nodes[h as int].parent)
            &&& settled(l.offsets, nodes[h as int].child)
            &&& same_node(nodes[h as int], l.offsets, r.0->Ok_0)
        }),
{
    let l = lazy_layout(nodes, offsets, item, pos);
    lemma_lazy_assigned(nodes, offsets, item, pos);
    lemma_lazy_faithful(nodes, offsets, item, pos, file);
    assert(record_faithful(file, nodes[h as int], l.offsets[h as int].unwrap(), l.offsets));
    lemma_faithful_loaded(
        file,
        nodes[h as int],
        l.offsets[h as int].unwrap(),
        l.offsets,
        st,
        max_loads,
    );
}

/// A set of neighbours that was written is loaded as it was written, with
/// the offsets that the write has left.
pub proof fn lemma_neighbors_round_trip(
    nodes: Seq<MergedNodeView>,
    offsets: Seq<Option<FileOffset>>,
    set: Seq<(LazyItemId, EagerLazyItem)>,
    pos: int,
    file: Seq<u8>,
    st: LoadState,
    max_loads: u16,
)
    requires
        nodes.len() == offsets.len(),
        lies_at(
            file,
            pos,
            entries_layout(nodes, offsets, eager_entries(set), false, pos).bytes,
        ),
        pos + entries_layout(nodes, offsets, eager_entries(set), false, pos).bytes.len()
            <= MAX_FILE_LEN,
        consistent(file, st),
        load_collection(
            file,
            st,
            entries_layout(nodes, offsets, eager_entries(set), false, pos).value,
            EntryKind::Eager,
            max_loads,
        ).0 is Ok,
        load_collection(
            file,
            st,
            entries_layout(nodes, offsets, eager_entries(set), false, pos).value,
            EntryKind::Eager,
            max_loads,
        ).1.nodes.len() <= usize::MAX,
    ensures
        ({
            let l = entries_layout(nodes, offsets, eager_entries(set), false, pos);
            let r = load_collection(file, st, l.value, EntryKind::Eager, max_loads);
            let loaded = r.0->Ok_0;
            let targets = neighbor_offsets(l.offsets, set);
            &&& consistent(file, r.1)
            &&& loaded.len() == set.len()
            &&& forall|i: int|
                0 <= i < set.len() ==> {
                    &&& (#[trigger] loaded[i]).similarity == set[i].1.0
                    &&& item_at(loaded[i].item, targets[i])
                }
            &&& distinct(targets) ==> as_neighbors(loaded) == neighbors_read(set, targets, loaded)
        }),
{
    let l = entries_layout(nodes, offsets, eager_entries(set), false, pos);
    lemma_collection_lies(nodes, offsets, eager_entries(set), pos, file);
    lemma_neighbors_loaded(file, l.value, set, l.offsets, st, max_loads);
}

/// A map that was written is loaded as it was written, with the offsets
/// that the write has left.
pub proof fn lemma_versions_round_trip(
    nodes: Seq<MergedNodeView>,
    offsets: Seq<Option<FileOffset>>,
    map: Seq<(KeyView, LazyItem)>,
    pos: int,
    file: Seq<u8>,
    st: LoadState,
    max_loads: u16,
)
    requires
        nodes.len() == offsets.len(),
        forall|i: int| 0 <= i < map.len() ==> key_encodable((#[trigger] map[i]).0),
        lies_at(file, pos, entries_layout(nodes, offsets, keyed_entries(map), false, pos).bytes),
        pos + entries_layout(nodes, offsets, keyed_entries(map), false, pos).bytes.len()
            <= MAX_FILE_LEN,
        consistent(file, st),
        load_collection(
            file,
            st,
            entries_layout(nodes, offsets, keyed_entries(map), false, pos).value,
            EntryKind::Keyed,
            max_loads,
        ).0 is Ok,
        load_collection(
            file,
            st,
            entries_layout(nodes, offsets, keyed_entries(map), false, pos).value,
            EntryKind::Keyed,
            max_loads,
        ).1.nodes.len() <= usize::MAX,
    ensures
        ({
            let l = entries_layout(nodes, offsets, keyed_entries(map), false, pos);
            let r = load_collection(file, st, l.value, EntryKind::Keyed, max_loads);
            let loaded = r.0->Ok_0;
            &&& consistent(file, r.1)
            &&& loaded.len() == map.len()
            &&& forall|i: int|
                0 <= i < map.len() ==> {
                    &&& (#[trigger] loaded[i]).key == map[i].0
                    &&& item_at(loaded[i].item, offset_in(l.offsets, map[i].1))
                }
            &&& keys_distinct(map) ==> as_versions(loaded) == versions_read(map, loaded)
        }),
{
    let l = entries_layout(nodes, offsets, keyed_entries(map), false, pos);
    lemma_collection_lies(nodes, offsets, keyed_entries(map), pos, file);
    lemma_versions_loaded(file, l.value, map, l.offsets, st, max_loads);
}

/// A cycle of the graph is kept. Where the node `a` has the node `b` for
/// its parent and `b` has `a` for its child, both were written by one
/// write, and both were loaded again, the parent of the node loaded for
/// `a` leads to the node loaded for `b`, and the child of that node leads
/// back to the node loaded for `a`.
pub proof fn lemma_cycle_kept(
    nodes: Seq<MergedNodeView>,
    offsets: Seq<Option<FileOffset>>,
    item: LazyItem,
    pos: int,
    file: Seq<u8>,
    a: Item,
    b: Item,
    st: LoadState,
    max_loads: u16,
)
    requires
        nodes.len() == offsets.len(),
        lies_at(file, pos, lazy_layout(nodes, offsets, item, pos).bytes),
        pos + lazy_layout(nodes, offsets, item, pos).bytes.len() <= MAX_FILE_LEN,
        a < nodes.len(),
        b < nodes.len(),
        offsets[a as int] is None,
        offsets[b as int] is None,
        lazy_layout(nodes, offsets, item, pos).offsets[a as int] is Some,
        lazy_layout(nodes, offsets, item, pos).offsets[b as int] is Some,
        nodes[a as int].parent == (LazyItem::Valid {
            data: Some(b),
            offset: None,
            decay_counter: 0,
        }),
        nodes[b as int].child == (LazyItem::Valid {
            data: Some(a),
            offset: None,
            decay_counter: 0,
        }),
        consistent(file, st),
        st.registry.contains_key(
            lazy_layout(nodes, offsets, item, pos).offsets[a as int].unwrap(),
        ),
        st.registry.contains_key(
            lazy_layout(nodes, offsets, item, pos).offsets[b as int].unwrap(),
        ),
    ensures
        ({
            let at_a = lazy_layout(nodes, offsets, item, pos).offsets[a as int].unwrap();
            let at_b = lazy_layout(nodes, offsets, item, pos).offsets[b as int].unwrap();
            let node_a = st.nodes[st.registry[at_a].data().unwrap() as int];
            let node_b = st.nodes[st.registry[at_b].data().unwrap() as int];
            &&& node_a.parent.offset() == Some(at_b)
            &&& load_lazy(file, st, at_b, max_loads) == (
                Ok::<LazyItem, LoadError>(st.registry[at_b]),
                st,
            )
            &&& node_b.child.offset() == Some(at_a)
            &&& load_lazy(file, st, at_a, max_loads) == (
                Ok::<LazyItem, LoadError>(st.registry[at_a]),
                st,
            )
        }),
{
    let after = lazy_layout(nodes, offsets, item, pos).offsets;
    lemma_lazy_assigned(nodes, offsets, item, pos);
    lemma_lazy_faithful(nodes, offsets, item, pos, file);
    assert(record_faithful(file, nodes[a as int], after[a as int].unwrap(), after));
    assert(record_faithful(file, nodes[b as int], after[b as int].unwrap(), after));
    lemma_cycle_returns(
        file,
        st,
        after[a as int].unwrap(),
        after[b as int].unwrap(),
        max_loads,
    );
}

/// No node of `offsets` has the absent offset for its offset.
pub open spec fn tidy(offsets: Seq<Option<FileOffset>>) -> bool {
    forall|h: int| 0 <= h < offsets.len() ==> #[trigger] offsets[h] != Some(u32::MAX)
}

/// A valid item has a node of the arena or an offset, and its offset is
/// not the absent one.
pub open spec fn sound(item: LazyItem, nodes: int) -> bool {
    &&& item.wf()
    &&& item.offset() != Some(u32::MAX)
    &&& item.offset() is None && item.data() is Some ==> item.data().unwrap() < nodes
}

/// A sound item has an offset after it was written exactly when it is
/// valid, and that offset is not the absent one.
pub proof fn lemma_sound_offset(
    before: Seq<Option<FileOffset>>,
    after: Seq<Option<FileOffset>>,
    pos: int,
    len: int,
    item: LazyItem,
)
    requires
        tidy(before),
        sound(item, before.len() as int),
        grown(before, after, pos, len),
        0 <= pos,
        pos + len <= MAX_FILE_LEN,
        settled(after, item),
    ensures
        (offset_in(after, item) != u32::MAX) == (item is Valid),
{
    if item is Valid && item.offset() is None {
        let h = item.data().unwrap() as int;
        assert(after[h] is Some);
        if before[h] is Some {
            assert(after[h] == before[h]);
        }
    }
}

/// A node that was written and is loaded again has a parent exactly when
/// it had one, and a child exactly when it had one.
pub proof fn lemma_links_kept(
    nodes: Seq<MergedNodeView>,
    offsets: Seq<Option<FileOffset>>,
    node: MergedNodeView,
    pos: int,
    file: Seq<u8>,
    st: LoadState,
    max_loads: u16,
)
    requires
        nodes.len() == offsets.len(),
        tidy(offsets),
        sound(node.parent, nodes.len() as int),
        sound(node.child, nodes.len() as int),
        forall|i: int|
            0 <= i < node.versions.len() ==> key_encodable((#[trigger] node.versions[i]).0),
        lies_at(file, pos, node_layout(nodes, offsets, node, pos).bytes),
        pos + node_layout(nodes, offsets, node, pos).bytes.len() <= MAX_FILE_LEN,
        consistent(file, st),
        load_node(file, st, pos as u32, max_loads).0 is Ok,
        load_node(file, st, pos as u32, max_loads).1.nodes.len() <= usize::MAX,
    ensures
        ({
            let loaded = load_node(file, st, pos as u32, max_loads).0->Ok_0;
            &&& (loaded.parent is Valid) == (node.parent is Valid)
            &&& (loaded.child is Valid) == (node.child is Valid)
        }),
{
    let l = node_layout(nodes, offsets, node, pos);
    lemma_node_round_trip(nodes, offsets, node, pos, file, st, max_loads);
    lemma_sound_offset(offsets, l.offsets, pos, l.bytes.len() as int, node.parent);
    lemma_sound_offset(offsets, l.offsets, pos, l.bytes.len() as int, node.child);
}

/// A node that was loaded and is written again gets a record with the
/// version, the level, the place of the property and the offsets of the
/// parent and the child that the record it was loaded from has. Where it
/// has neither neighbours nor versions, and that record names none, the
/// record is written again byte for byte, and nothing else is written.
pub proof fn lemma_record_kept(
    file: Seq<u8>,
    at: u32,
    loaded: MergedNodeView,
    nodes: Seq<MergedNodeView>,
    offsets: Seq<Option<FileOffset>>,
    pos: int,
)
    requires
        node_reads(file, at, loaded),
        nodes.len() == offsets.len(),
    ensures
        ({
            let l = node_layout(nodes, offsets, loaded, pos);
            let h = header_at(file, at as int);
            &&& l.bytes.len() >= 27
            &&& l.bytes.subrange(0, 19) == file.subrange(at as int, at + 19)
            &&& loaded.neighbors.len() == 0 && loaded.versions.len() == 0 && h.neighbors
                == u32::MAX && h.versions == u32::MAX ==> l.bytes == file.subrange(
                at as int,
                at + 27,
            ) && l.offsets == offsets
        }),
{
    lemma_le_round_trip();
    vstd::bytes::lemma_auto_spec_u32_to_from_le_bytes();
    vstd::bytes::lemma_auto_spec_u16_to_from_le_bytes();
    let h = header_at(file, at as int);
    let l = node_layout(nodes, offsets, loaded, pos);
    lemma_node_layout(nodes, offsets, loaded, pos);
    lemma_node_record_len(loaded);
    let parent = lazy_layout(nodes, offsets, loaded.parent, pos + 27);
    lemma_lazy_layout(nodes, offsets, loaded.parent, pos + 27);
    assert(parent.value == h.parent);
    assert(parent.bytes.len() == 0);
    assert(carried(offsets, parent.offsets) == offsets);
    let child = lazy_layout(nodes, offsets, loaded.child, pos + 27);
    lemma_lazy_layout(nodes, offsets, loaded.child, pos + 27);
    assert(child.value == h.child);
    assert(carried(offsets, child.offsets) == offsets);
    let neighbors = entries_layout(
        nodes,
        offsets,
        eager_entries(loaded.neighbors),
        false,
        pos + 27,
    );
    lemma_entries_layout(nodes, offsets, eager_entries(loaded.neighbors), false, pos + 27);
    let versions = entries_layout(
        nodes,
        carried(offsets, neighbors.offsets),
        keyed_entries(loaded.versions),
        false,
        pos + 27 + neighbors.bytes.len(),
    );
    lemma_entries_layout(
        nodes,
        carried(offsets, neighbors.offsets),
        keyed_entries(loaded.versions),
        false,
        pos + 27 + neighbors.bytes.len(),
    );
    let record = node_record(
        loaded.version_id,
        loaded.hnsw_level,
        h.prop,
        h.parent,
        h.child,
        neighbors.value,
        versions.value,
    );
    assert(prop_fields(loaded.prop) == h.prop);
    let old = file.subrange(at as int, at + 27);
    assert(old.subrange(0, 2) =~= file.subrange(at as int, at + 2));
    assert(le16(h.version_id) == file.subrange(at as int, at + 2));
    assert(le32(h.prop.0) == file.subrange(at + 3, at + 7));
    assert(le32(h.prop.1) == file.subrange(at + 7, at + 11));
    assert(le32(h.parent) == file.subrange(at + 11, at + 15));
    assert(le32(h.child) == file.subrange(at + 15, at + 19));
    assert(record.subrange(0, 19) =~= file.subrange(at as int, at + 19));
    assert(l.bytes.subrange(0, 19) =~= record.subrange(0, 19));
    if loaded.neighbors.len() == 0 && loaded.versions.len() == 0 && h.neighbors == u32::MAX
        && h.versions == u32::MAX {
        assert(le32(h.neighbors) == file.subrange(at + 19, at + 23));
        assert(le32(h.versions) == file.subrange(at + 23, at + 27));
        assert(record =~= old);
        assert(l.bytes =~= record);
    }
}

/// Two links are the same link as far as a file holds them: both are
/// invalid, or both hold the same offset.
pub open spec fn same_link(a: LazyItem, b: LazyItem) -> bool {
    (a is Valid) == (b is Valid) && a.offset() == b.offset()
}

/// Two nodes are the same node as far as a file holds them.
pub open spec fn alike(a: MergedNodeView, b: MergedNodeView) -> bool {
    &&& b.version_id == a.version_id
    &&& b.hnsw_level == a.hnsw_level
    &&& b.prop == a.prop
    &&& b.persist_flag == a.persist_flag
    &&& same_link(a.parent, b.parent)
    &&& same_link(a.child, b.child)
    &&& b.neighbors.len() == a.neighbors.len()
    &&& forall|i: int|
        0 <= i < a.neighbors.len() ==> {
            &&& (#[trigger] b.neighbors[i]).0 == a.neighbors[i].0
            &&& b.neighbors[i].1.0 == a.neighbors[i].1.0
            &&& same_link(a.neighbors[i].1.1, b.neighbors[i].1.1)
        }
    &&& b.versions.len() == a.versions.len()
    &&& forall|i: int|
        0 <= i < a.versions.len() ==> {
            &&& (#[trigger] b.versions[i]).0 == a.versions[i].0
            &&& same_link(a.versions[i].1, b.versions[i].1)
        }
}

/// An item that is on disk stands for its own offset, whatever offsets
/// the nodes of an arena have.
pub proof fn lemma_persisted_offset(
    table: Seq<Option<FileOffset>>,
    item: LazyItem,
    loaded: LazyItem,
)
    requires
        persisted(item),
        item_at(loaded, offset_in(table, item)),
    ensures
        same_link(item, loaded),
{
}

/// A node that was loaded, written again and loaded again is the node
/// that was loaded: a second round trip changes nothing that a file holds.
pub proof fn lemma_round_trip_again(
    loaded: MergedNodeView,
    nodes: Seq<MergedNodeView>,
    offsets: Seq<Option<FileOffset>>,
    pos: int,
    file: Seq<u8>,
    st: LoadState,
    max_loads: u16,
)
    requires
        on_disk(loaded),
        nodes.len() == offsets.len(),
        lies_at(file, pos, node_layout(nodes, offsets, loaded, pos).bytes),
        pos + node_layout(nodes, offsets, loaded, pos).bytes.len() <= MAX_FILE_LEN,
        consistent(file, st),
        load_node(file, st, pos as u32, max_loads).0 is Ok,
        load_node(file, st, pos as u32, max_loads).1.nodes.len() <= usize::MAX,
    ensures
        alike(loaded, load_node(file, st, pos as u32, max_loads).0->Ok_0),
{
    let l = node_layout(nodes, offsets, loaded, pos);
    let again = load_node(file, st, pos as u32, max_loads).0->Ok_0;
    lemma_node_round_trip(nodes, offsets, loaded, pos, file, st, max_loads);
    let targets = neighbor_offsets(l.offsets, loaded.neighbors);
    assert(distinct(targets)) by {
        assert forall|i: int, j: int| 0 <= i < j < targets.len() implies targets[i]
            != targets[j] by {
            assert(loaded.neighbors[i].0 != loaded.neighbors[j].0);
            assert(loaded.neighbors[i].0 == persisted_id(loaded.neighbors[i].1.1));
            assert(loaded.neighbors[j].0 == persisted_id(loaded.neighbors[j].1.1));
        }
    }
    lemma_persisted_offset(l.offsets, loaded.parent, again.parent);
    lemma_persisted_offset(l.offsets, loaded.child, again.child);
    assert forall|i: int| 0 <= i < loaded.neighbors.len() implies {
        &&& (#[trigger] again.neighbors[i]).0 == loaded.neighbors[i].0
        &&& again.neighbors[i].1.0 == loaded.neighbors[i].1.0
        &&& same_link(loaded.neighbors[i].1.1, again.neighbors[i].1.1)
    } by {
        assert(loaded.neighbors[i].0 == persisted_id(loaded.neighbors[i].1.1));
        lemma_persisted_offset(l.offsets, loaded.neighbors[i].1.1, again.neighbors[i].1.1);
    }
    assert forall|i: int| 0 <= i < loaded.versions.len() implies {
        &&& (#[trigger] again.versions[i]).0 == loaded.versions[i].0
        &&& same_link(loaded.versions[i].1, again.versions[i].1)
    } by {
        lemma_persisted_offset(l.offsets, loaded.versions[i].1, again.versions[i].1);
    }
}

} // verus!
