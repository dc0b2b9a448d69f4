//! The file as an image of the graph.
//!
//! Every node that a write reaches for the first time gets an offset, and
//! its record lies there. The record holds the version, the level and the
//! place of the property of the node. It names the parent and the child by
//! the offsets that they have when the write is over, and so do the entries
//! of its neighbours and its versions. A cycle of the graph is therefore a
//! cycle of offsets in the file.

use crate::models::cache_loader::{collection_slots, header_at};
use crate::models::custom_buffered_writer::MAX_FILE_LEN;
use crate::models::endian::{le32, lemma_le_round_trip};
use crate::models::lazy_load::LazyItem;
use crate::models::node_arena::lazy_offset;
use crate::models::serializer::assigned::{
    grown, lemma_chunks_assigned, lemma_entries_assigned, lemma_entry_assigned, lemma_grown_twice,
    lemma_grown_unassigned, lemma_items_assigned, lemma_lazy_assigned, lemma_lazy_offset_grown,
    lemma_node_assigned, lemma_node_record_len, offset_or_absent,
};
use crate::models::serializer::decode::{
    entry_lies, lemma_chain_decode, lemma_header_decode, lemma_lies_at_parts, lies_at,
};
use crate::models::serializer::layout::{
    chunk_head, chunks_layout, eager_entries, entries_layout, entry_layout, items_layout,
    keyed_entries, lazy_layout, lemma_chunks_layout, lemma_entries_layout, lemma_entry_layout,
    lemma_items_layout, lemma_lazy_layout, lemma_unassigned_update, node_layout, node_record,
    prop_fields, unassigned, EntryView,
};
use crate::models::serializer::lazy_item_map::record_at;
use crate::models::serializer::write::{lemma_chunk_head, lemma_chunks_start, lemma_items_slots};
use crate::models::types::{FileOffset, MergedNodeView};
use vstd::prelude::*;

verus! {

/// `item` has its offset in `table`, or it can have none.
pub open spec fn settled(table: Seq<Option<FileOffset>>, item: LazyItem) -> bool {
    lazy_offset(table, item) is Some || item.data() is None || item.data().unwrap() >= table.len()
}

/// The offset that stands for `item` in a file once the nodes have the
/// offsets of `table`.
pub open spec fn offset_in(table: Seq<Option<FileOffset>>, item: LazyItem) -> u32 {
    offset_or_absent(lazy_offset(table, item))
}

/// The collection at `offset` in `file` has one slot for each of `entries`,
/// in their order, and each entry lies at its slot: its prefix, and the
/// offset that its item has in `table`.
pub open spec fn collection_lies(
    file: Seq<u8>,
    offset: u32,
    entries: Seq<EntryView>,
    table: Seq<Option<FileOffset>>,
) -> bool {
    &&& collection_slots(file, offset) is Ok
    &&& collection_slots(file, offset)->Ok_0.len() == entries.len()
    &&& forall|i: int|
        0 <= i < entries.len() ==> {
            &&& entry_lies(
                file,
                #[trigger] collection_slots(file, offset)->Ok_0[i],
                entries[i].prefix,
                offset_in(table, entries[i].item),
            )
            &&& settled(table, entries[i].item)
        }
}

/// The record at `at` in `file` is the record of `node`: it holds the
/// version, the level and the place of the property of the node, and it
/// names the parent, the child, the neighbours and the versions of the
/// node by the offsets that they have in `table`.
pub open spec fn record_faithful(
    file: Seq<u8>,
    node: MergedNodeView,
    at: u32,
    table: Seq<Option<FileOffset>>,
) -> bool {
    let record = header_at(file, at as int);
    &&& record_at(file, at, 27) is Ok
    &&& record.version_id == node.version_id
    &&& record.hnsw_level == node.hnsw_level
    &&& record.prop == prop_fields(node.prop)
    &&& record.parent == offset_in(table, node.parent)
    &&& record.child == offset_in(table, node.child)
    &&& settled(table, node.parent)
    &&& settled(table, node.child)
    &&& collection_lies(file, record.neighbors, eager_entries(node.neighbors), table)
    &&& collection_lies(file, record.versions, keyed_entries(node.versions), table)
}

/// Every node that has an offset in `after` and had none in `before` has
/// its record at that offset in `file`.
pub open spec fn faithful(
    nodes: Seq<MergedNodeView>,
    before: Seq<Option<FileOffset>>,
    after: Seq<Option<FileOffset>>,
    file: Seq<u8>,
) -> bool {
    forall|h: int|
        0 <= h < nodes.len() && h < before.len() && before[h] is None && (#[trigger] after[h])
            is Some ==> record_faithful(file, nodes[h], after[h].unwrap(), after)
}

/// A collection that lies in a file still does when the table has grown.
pub proof fn lemma_collection_grown(
    file: Seq<u8>,
    offset: u32,
    entries: Seq<EntryView>,
    before: Seq<Option<FileOffset>>,
    after: Seq<Option<FileOffset>>,
    pos: int,
    len: int,
)
    requires
        collection_lies(file, offset, entries, before),
        grown(before, after, pos, len),
    ensures
        collection_lies(file, offset, entries, after),
{
    let slots = collection_slots(file, offset)->Ok_0;
    assert forall|i: int| 0 <= i < entries.len() implies {
        &&& entry_lies(
            file,
            #[trigger] slots[i],
            entries[i].prefix,
            offset_in(after, entries[i].item),
        )
        &&& settled(after, entries[i].item)
    } by {
        lemma_lazy_offset_grown(before, after, pos, len, entries[i].item);
        assert(entry_lies(file, slots[i], entries[i].prefix, offset_in(before, entries[i].item)));
    }
}

/// A record that is faithful still is when the table has grown.
pub proof fn lemma_record_grown(
    file: Seq<u8>,
    node: MergedNodeView,
    at: u32,
    before: Seq<Option<FileOffset>>,
    after: Seq<Option<FileOffset>>,
    pos: int,
    len: int,
)
    requires
        record_faithful(file, node, at, before),
        grown(before, after, pos, len),
    ensures
        record_faithful(file, node, at, after),
{
    let record = header_at(file, at as int);
    lemma_lazy_offset_grown(before, after, pos, len, node.parent);
    lemma_lazy_offset_grown(before, after, pos, len, node.child);
    lemma_collection_grown(
        file,
        record.neighbors,
        eager_entries(node.neighbors),
        before,
        after,
        pos,
        len,
    );
    lemma_collection_grown(
        file,
        record.versions,
        keyed_entries(node.versions),
        before,
        after,
        pos,
        len,
    );
}

/// The records of the nodes that one step of a write gave offsets are
/// faithful when the whole write is over.
pub proof fn lemma_faithful_grown(
    nodes: Seq<MergedNodeView>,
    before: Seq<Option<FileOffset>>,
    mid: Seq<Option<FileOffset>>,
    after: Seq<Option<FileOffset>>,
    file: Seq<u8>,
    pos: int,
    len: int,
)
    requires
        faithful(nodes, before, mid, file),
        grown(mid, after, pos, len),
        before.len() == mid.len(),
    ensures
        forall|h: int|
            0 <= h < nodes.len() && h < before.len() && before[h] is None && (#[trigger] mid[h])
                is Some ==> record_faithful(file, nodes[h], mid[h].unwrap(), after) && after[h]
                == mid[h],
{
    assert forall|h: int|
        0 <= h < nodes.len() && h < before.len() && before[h] is None && (#[trigger] mid[h])
            is Some implies record_faithful(file, nodes[h], mid[h].unwrap(), after) && after[h]
        == mid[h] by {
        lemma_record_grown(file, nodes[h], mid[h].unwrap(), mid, after, pos, len);
    }
}

/// A table has grown from itself.
pub proof fn lemma_grown_same(table: Seq<Option<FileOffset>>, pos: int)
    ensures
        grown(table, table, pos, 0),
{
}

/// A collection that was written lies in the file, with the offsets that
/// its items have after the write.
pub proof fn lemma_collection_lies(
    nodes: Seq<MergedNodeView>,
    offsets: Seq<Option<FileOffset>>,
    entries: Seq<EntryView>,
    pos: int,
    file: Seq<u8>,
)
    requires
        nodes.len() == offsets.len(),
        lies_at(file, pos, entries_layout(nodes, offsets, entries, false, pos).bytes),
        pos + entries_layout(nodes, offsets, entries, false, pos).bytes.len() <= MAX_FILE_LEN,
    ensures
        ({
            let l = entries_layout(nodes, offsets, entries, false, pos);
            &&& collection_lies(file, l.value, entries, l.offsets)
            &&& collection_slots(file, l.value)->Ok_0 == l.slots
            &&& l.targets.len() == entries.len()
            &&& forall|i: int|
                0 <= i < entries.len() ==> #[trigger] l.targets[i] == offset_in(
                    l.offsets,
                    entries[i].item,
                )
        }),
{
    let l = entries_layout(nodes, offsets, entries, false, pos);
    lemma_entries_layout(nodes, offsets, entries, false, pos);
    lemma_entries_assigned(nodes, offsets, entries, false, pos);
    if entries.len() > 0 {
        lemma_chunks_start(nodes, offsets, entries, false, pos);
        lemma_chain_decode(nodes, offsets, entries, pos, file);
        let slots = collection_slots(file, l.value)->Ok_0;
        assert forall|i: int| 0 <= i < entries.len() implies {
            &&& entry_lies(
                file,
                #[trigger] slots[i],
                entries[i].prefix,
                offset_in(l.offsets, entries[i].item),
            )
            &&& settled(l.offsets, entries[i].item)
        } by {
            assert(entry_lies(file, l.slots[i], entries[i].prefix, l.targets[i]));
        }
    }
}

/// The records of the nodes that a write of a lazy item gives offsets.
pub proof fn lemma_lazy_faithful(
    nodes: Seq<MergedNodeView>,
    offsets: Seq<Option<FileOffset>>,
    item: LazyItem,
    pos: int,
    file: Seq<u8>,
)
    requires
        nodes.len() == offsets.len(),
        lies_at(file, pos, lazy_layout(nodes, offsets, item, pos).bytes),
        pos + lazy_layout(nodes, offsets, item, pos).bytes.len() <= MAX_FILE_LEN,
    ensures
        faithful(nodes, offsets, lazy_layout(nodes, offsets, item, pos).offsets, file),
    decreases unassigned(offsets), 0int, 0int,
{
    lemma_lazy_layout(nodes, offsets, item, pos);
    lemma_lazy_assigned(nodes, offsets, item, pos);
    let l = lazy_layout(nodes, offsets, item, pos);
    if lazy_offset(offsets, item) is None && item.data() is Some && item.data().unwrap()
        < nodes.len() {
        let h = item.data().unwrap() as int;
        let marked = offsets.update(h, Some(pos as u32));
        lemma_unassigned_update(offsets, h, pos as u32);
        lemma_node_faithful(nodes, marked, nodes[h], pos, file);
        lemma_node_assigned(nodes, marked, nodes[h], pos);
        assert(l.offsets[h] == marked[h]);
        assert forall|k: int|
            0 <= k < nodes.len() && k < offsets.len() && offsets[k] is None && (
            #[trigger] l.offsets[k]) is Some implies record_faithful(
            file,
            nodes[k],
            l.offsets[k].unwrap(),
            l.offsets,
        ) by {
            if k != h {
                assert(marked[k] is None);
            }
        }
    }
}

/// The records of the nodes that a write of a node gives offsets, and the
/// record of the node itself.
pub proof fn lemma_node_faithful(
    nodes: Seq<MergedNodeView>,
    offsets: Seq<Option<FileOffset>>,
    node: MergedNodeView,
    pos: int,
    file: Seq<u8>,
)
    requires
        nodes.len() == offsets.len(),
        lies_at(file, pos, node_layout(nodes, offsets, node, pos).bytes),
        pos + node_layout(nodes, offsets, node, pos).bytes.len() <= MAX_FILE_LEN,
    ensures
        ({
            let l = node_layout(nodes, offsets, node, pos);
            &&& faithful(nodes, offsets, l.offsets, file)
            &&& record_faithful(file, node, pos as u32, l.offsets)
        }),
    decreases unassigned(offsets), 4int, 0int,
{
    lemma_le_round_trip();
    lemma_node_assigned(nodes, offsets, node, pos);
    lemma_node_record_len(node);
    let l = node_layout(nodes, offsets, node, pos);
    let at_parent = pos + 27;
    let parent = lazy_layout(nodes, offsets, node.parent, at_parent);
    let at_child = at_parent + parent.bytes.len();
    let child = lazy_layout(nodes, parent.offsets, node.child, at_child);
    let at_neighbors = at_child + child.bytes.len();
    let neighbor_entries = eager_entries(node.neighbors);
    let neighbors = entries_layout(nodes, child.offsets, neighbor_entries, false, at_neighbors);
    let at_versions = at_neighbors + neighbors.bytes.len();
    let version_entries = keyed_entries(node.versions);
    let versions = entries_layout(nodes, neighbors.offsets, version_entries, false, at_versions);
    let record = node_record(
        node.version_id,
        node.hnsw_level,
        prop_fields(node.prop),
        parent.value,
        child.value,
        neighbors.value,
        versions.value,
    );
    // Where the parts lie.
    lemma_lies_at_parts(
        file,
        pos,
        record + parent.bytes + child.bytes + neighbors.bytes,
        versions.bytes,
    );
    lemma_lies_at_parts(file, pos, record + parent.bytes + child.bytes, neighbors.bytes);
    lemma_lies_at_parts(file, pos, record + parent.bytes, child.bytes);
    lemma_lies_at_parts(file, pos, record, parent.bytes);
    // The steps, each with the records of the nodes that it has written.
    lemma_grown_unassigned(offsets, parent.offsets, at_parent, parent.bytes.len() as int);
    lemma_grown_twice(
        offsets,
        parent.offsets,
        child.offsets,
        at_parent,
        parent.bytes.len() as int,
        child.bytes.len() as int,
    );
    lemma_grown_unassigned(
        offsets,
        child.offsets,
        at_parent,
        (parent.bytes.len() + child.bytes.len()) as int,
    );
    lemma_grown_twice(
        offsets,
        child.offsets,
        neighbors.offsets,
        at_parent,
        (parent.bytes.len() + child.bytes.len()) as int,
        neighbors.bytes.len() as int,
    );
    lemma_grown_unassigned(
        offsets,
        neighbors.offsets,
        at_parent,
        (parent.bytes.len() + child.bytes.len() + neighbors.bytes.len()) as int,
    );
    lemma_lazy_faithful(nodes, offsets, node.parent, at_parent, file);
    lemma_lazy_faithful(nodes, parent.offsets, node.child, at_child, file);
    lemma_entries_faithful(nodes, child.offsets, neighbor_entries, false, at_neighbors, file);
    lemma_entries_faithful(nodes, neighbors.offsets, version_entries, false, at_versions, file);
    // How far the table has grown behind each step.
    lemma_grown_twice(
        child.offsets,
        neighbors.offsets,
        versions.offsets,
        at_neighbors,
        neighbors.bytes.len() as int,
        versions.bytes.len() as int,
    );
    lemma_grown_twice(
        parent.offsets,
        child.offsets,
        versions.offsets,
        at_child,
        child.bytes.len() as int,
        (neighbors.bytes.len() + versions.bytes.len()) as int,
    );
    lemma_grown_same(versions.offsets, pos);
    lemma_faithful_grown(
        nodes,
        offsets,
        parent.offsets,
        l.offsets,
        file,
        at_child,
        (child.bytes.len() + neighbors.bytes.len() + versions.bytes.len()) as int,
    );
    lemma_faithful_grown(
        nodes,
        parent.offsets,
        child.offsets,
        l.offsets,
        file,
        at_neighbors,
        (neighbors.bytes.len() + versions.bytes.len()) as int,
    );
    lemma_faithful_grown(
        nodes,
        child.offsets,
        neighbors.offsets,
        l.offsets,
        file,
        at_versions,
        versions.bytes.len() as int,
    );
    lemma_faithful_grown(nodes, neighbors.offsets, versions.offsets, l.offsets, file, pos, 0);
    assert forall|h: int|
        0 <= h < nodes.len() && h < offsets.len() && offsets[h] is None && (#[trigger] l.offsets[h])
            is Some implies record_faithful(file, nodes[h], l.offsets[h].unwrap(), l.offsets) by {
        if parent.offsets[h] is Some {
        } else if child.offsets[h] is Some {
        } else if neighbors.offsets[h] is Some {
        } else {
            assert(versions.offsets[h] is Some);
        }
    }
    // The record of the node itself.
    lemma_header_decode(
        file,
        pos,
        node.version_id,
        node.hnsw_level,
        prop_fields(node.prop),
        parent.value,
        child.value,
        neighbors.value,
        versions.value,
    );
    lemma_lazy_assigned(nodes, offsets, node.parent, at_parent);
    lemma_lazy_assigned(nodes, parent.offsets, node.child, at_child);
    lemma_lazy_offset_grown(
        parent.offsets,
        l.offsets,
        at_child,
        (child.bytes.len() + neighbors.bytes.len() + versions.bytes.len()) as int,
        node.parent,
    );
    lemma_lazy_offset_grown(
        child.offsets,
        l.offsets,
        at_neighbors,
        (neighbors.bytes.len() + versions.bytes.len()) as int,
        node.child,
    );
    lemma_collection_lies(nodes, child.offsets, neighbor_entries, at_neighbors, file);
    lemma_collection_grown(
        file,
        neighbors.value,
        neighbor_entries,
        neighbors.offsets,
        l.offsets,
        at_versions,
        versions.bytes.len() as int,
    );
    lemma_collection_lies(nodes, neighbors.offsets, version_entries, at_versions, file);
}

/// The records of the nodes that a write of a collection gives offsets.
pub proof fn lemma_entries_faithful(
    nodes: Seq<MergedNodeView>,
    offsets: Seq<Option<FileOffset>>,
    entries: Seq<EntryView>,
    direct: bool,
    pos: int,
    file: Seq<u8>,
)
    requires
        nodes.len() == offsets.len(),
        lies_at(file, pos, entries_layout(nodes, offsets, entries, direct, pos).bytes),
        pos + entries_layout(nodes, offsets, entries, direct, pos).bytes.len() <= MAX_FILE_LEN,
    ensures
        faithful(
            nodes,
            offsets,
            entries_layout(nodes, offsets, entries, direct, pos).offsets,
            file,
        ),
    decreases unassigned(offsets), 3int, 0int,
{
    lemma_entries_layout(nodes, offsets, entries, direct, pos);
    if entries.len() > 0 {
        lemma_chunks_faithful(nodes, offsets, entries, direct, pos, file);
    }
}

/// The records of the nodes that a write of a chain of chunks gives offsets.
pub proof fn lemma_chunks_faithful(
    nodes: Seq<MergedNodeView>,
    offsets: Seq<Option<FileOffset>>,
    entries: Seq<EntryView>,
    direct: bool,
    pos: int,
    file: Seq<u8>,
)
    requires
        nodes.len() == offsets.len(),
        lies_at(file, pos, chunks_layout(nodes, offsets, entries, direct, pos).bytes),
        pos + chunks_layout(nodes, offsets, entries, direct, pos).bytes.len() <= MAX_FILE_LEN,
    ensures
        faithful(
            nodes,
            offsets,
            chunks_layout(nodes, offsets, entries, direct, pos).offsets,
            file,
        ),
    decreases unassigned(offsets), 2int, entries.len(),
{
    lemma_chunks_layout(nodes, offsets, entries, direct, pos);
    let l = chunks_layout(nodes, offsets, entries, direct, pos);
    if entries.len() > 0 {
        let k = if entries.len() < 5 {
            entries.len() as int
        } else {
            5
        };
        let mine = entries.subrange(0, k);
        let body = items_layout(nodes, offsets, mine, direct, pos + 24);
        let next = pos + 24 + body.bytes.len();
        let rest = entries.subrange(k, entries.len() as int);
        let link = if rest.len() == 0 {
            u32::MAX
        } else {
            next as u32
        };
        let head = chunk_head(body.slots, link);
        lemma_items_slots(nodes, offsets, mine, direct, pos + 24);
        lemma_chunk_head(body.slots, link);
        lemma_items_assigned(nodes, offsets, mine, direct, pos + 24);
        lemma_grown_unassigned(offsets, body.offsets, pos + 24, body.bytes.len() as int);
        let tail = chunks_layout(nodes, body.offsets, rest, direct, next);
        lemma_lies_at_parts(file, pos, head + body.bytes, tail.bytes);
        lemma_lies_at_parts(file, pos, head, body.bytes);
        lemma_chunks_assigned(nodes, body.offsets, rest, direct, next);
        lemma_items_faithful(nodes, offsets, mine, direct, pos + 24, file);
        lemma_chunks_faithful(nodes, body.offsets, rest, direct, next, file);
        lemma_grown_same(tail.offsets, pos);
        lemma_faithful_grown(
            nodes,
            offsets,
            body.offsets,
            l.offsets,
            file,
            next,
            tail.bytes.len() as int,
        );
        lemma_faithful_grown(nodes, body.offsets, tail.offsets, l.offsets, file, pos, 0);
        assert forall|h: int|
            0 <= h < nodes.len() && h < offsets.len() && offsets[h] is None && (
            #[trigger] l.offsets[h]) is Some implies record_faithful(
            file,
            nodes[h],
            l.offsets[h].unwrap(),
            l.offsets,
        ) by {
            if body.offsets[h] is Some {
            } else {
                assert(tail.offsets[h] is Some);
            }
        }
    }
}

/// The records of the nodes that a write of the entries of a chunk gives
/// offsets.
pub proof fn lemma_items_faithful(
    nodes: Seq<MergedNodeView>,
    offsets: Seq<Option<FileOffset>>,
    items: Seq<EntryView>,
    direct: bool,
    pos: int,
    file: Seq<u8>,
)
    requires
        nodes.len() == offsets.len(),
        lies_at(file, pos, items_layout(nodes, offsets, items, direct, pos).bytes),
        pos + items_layout(nodes, offsets, items, direct, pos).bytes.len() <= MAX_FILE_LEN,
    ensures
        faithful(nodes, offsets, items_layout(nodes, offsets, items, direct, pos).offsets, file),
    decreases unassigned(offsets), 1int, items.len(),
{
    lemma_items_layout(nodes, offsets, items, direct, pos);
    let l = items_layout(nodes, offsets, items, direct, pos);
    if items.len() > 0 {
        let first = entry_layout(nodes, offsets, items[0], direct, pos);
        lemma_entry_assigned(nodes, offsets, items[0], direct, pos);
        lemma_grown_unassigned(offsets, first.offsets, pos, first.bytes.len() as int);
        let at_rest = pos + first.bytes.len();
        let rest = items_layout(nodes, first.offsets, items.drop_first(), direct, at_rest);
        lemma_lies_at_parts(file, pos, first.bytes, rest.bytes);
        lemma_items_assigned(nodes, first.offsets, items.drop_first(), direct, at_rest);
        lemma_entry_faithful(nodes, offsets, items[0], direct, pos, file);
        lemma_items_faithful(nodes, first.offsets, items.drop_first(), direct, at_rest, file);
        lemma_grown_same(rest.offsets, pos);
        lemma_faithful_grown(
            nodes,
            offsets,
            first.offsets,
            l.offsets,
            file,
            at_rest,
            rest.bytes.len() as int,
        );
        lemma_faithful_grown(nodes, first.offsets, rest.offsets, l.offsets, file, pos, 0);
        assert forall|h: int|
            0 <= h < nodes.len() && h < offsets.len() && offsets[h] is None && (
            #[trigger] l.offsets[h]) is Some implies record_faithful(
            file,
            nodes[h],
            l.offsets[h].unwrap(),
            l.offsets,
        ) by {
            if first.offsets[h] is Some {
            } else {
                assert(rest.offsets[h] is Some);
            }
        }
    }
}

/// The records of the nodes that a write of one entry gives offsets.
pub proof fn lemma_entry_faithful(
    nodes: Seq<MergedNodeView>,
    offsets: Seq<Option<FileOffset>>,
    entry: EntryView,
    direct: bool,
    pos: int,
    file: Seq<u8>,
)
    requires
        nodes.len() == offsets.len(),
        lies_at(file, pos, entry_layout(nodes, offsets, entry, direct, pos).bytes),
        pos + entry_layout(nodes, offsets, entry, direct, pos).bytes.len() <= MAX_FILE_LEN,
    ensures
        faithful(nodes, offsets, entry_layout(nodes, offsets, entry, direct, pos).offsets, file),
    decreases unassigned(offsets), 0int, 1int,
{
    lemma_le_round_trip();
    lemma_entry_layout(nodes, offsets, entry, direct, pos);
    if direct {
        lemma_lazy_faithful(nodes, offsets, entry.item, pos, file);
    } else {
        let at = pos + entry.prefix.len() + 4;
        let item = lazy_layout(nodes, offsets, entry.item, at);
        lemma_lies_at_parts(
            file,
            pos,
            entry.prefix + le32(item.value),
            item.bytes,
        );
        lemma_lazy_faithful(nodes, offsets, entry.item, at, file);
    }
}

} // verus!
