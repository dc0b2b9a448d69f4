//! A write gives every node a place of its own: the records of two nodes
//! never overlap, so no node is written twice and no two nodes get the
//! same offset.

use crate::models::custom_buffered_writer::MAX_FILE_LEN;
use crate::models::endian::lemma_le_round_trip;
use crate::models::lazy_load::LazyItem;
use crate::models::node_arena::lazy_offset;
use crate::models::serializer::assigned::{
    lemma_entry_assigned, lemma_grown_twice, lemma_grown_unassigned, lemma_items_assigned,
    lemma_node_assigned, lemma_node_record_len,
};
use crate::models::serializer::layout::{
    chunks_layout, eager_entries, entries_layout, entry_layout, items_layout, keyed_entries,
    lazy_layout, lemma_chunks_layout, lemma_entries_layout, lemma_entry_layout,
    lemma_entry_target, lemma_items_layout, lemma_lazy_layout, lemma_unassigned_update,
    node_layout, unassigned, EntryView,
};
use crate::models::serializer::write::{lemma_chunk_head, lemma_items_slots};
use crate::models::types::{FileOffset, MergedNodeView};
use vstd::prelude::*;

verus! {

/// The record of every node of `table` ends at `pos` or in front of it,
/// and the records of two nodes do not overlap.
pub open spec fn packed(table: Seq<Option<FileOffset>>, pos: int) -> bool {
    &&& forall|h: int|
        0 <= h < table.len() && (#[trigger] table[h]) is Some ==> table[h].unwrap() + 27 <= pos
    &&& forall|h: int, k: int|
        0 <= h < k < table.len() && (#[trigger] table[h]) is Some && (#[trigger] table[k])
            is Some ==> table[h].unwrap() + 27 <= table[k].unwrap() || table[k].unwrap() + 27
            <= table[h].unwrap()
}

/// A lazy item that is written behind every offset of a packed table leaves
/// the table packed.
pub proof fn lemma_lazy_packed(
    nodes: Seq<MergedNodeView>,
    offsets: Seq<Option<FileOffset>>,
    item: LazyItem,
    pos: int,
)
    requires
        nodes.len() == offsets.len(),
        0 <= pos,
        pos + lazy_layout(nodes, offsets, item, pos).bytes.len() <= MAX_FILE_LEN,
        packed(offsets, pos),
    ensures
        ({
            let l = lazy_layout(nodes, offsets, item, pos);
            packed(l.offsets, pos + l.bytes.len())
        }),
    decreases unassigned(offsets), 0int, 0int,
{
    lemma_lazy_layout(nodes, offsets, item, pos);
    if lazy_offset(offsets, item) is None && item.data() is Some && item.data().unwrap()
        < nodes.len() {
        let h = item.data().unwrap() as int;
        let marked = offsets.update(h, Some(pos as u32));
        lemma_unassigned_update(offsets, h, pos as u32);
        assert(packed(marked, pos + 27)) by {
            assert forall|a: int, b: int|
                0 <= a < b < marked.len() && (#[trigger] marked[a]) is Some && (
                #[trigger] marked[b]) is Some implies marked[a].unwrap() + 27
                <= marked[b].unwrap() || marked[b].unwrap() + 27 <= marked[a].unwrap() by {
                if a != h && b != h {
                    assert(offsets[a] is Some && offsets[b] is Some);
                } else if a == h {
                    assert(offsets[b] is Some);
                } else {
                    assert(offsets[a] is Some);
                }
            }
            assert forall|a: int|
                0 <= a < marked.len() && (#[trigger] marked[a]) is Some implies marked[a].unwrap()
                + 27 <= pos + 27 by {
                if a != h {
                    assert(offsets[a] is Some);
                }
            }
        }
        lemma_node_packed(nodes, marked, nodes[h], pos);
    }
}

/// A node whose record is written at `pos`, behind every offset of a packed
/// table, leaves the table packed.
pub proof fn lemma_node_packed(
    nodes: Seq<MergedNodeView>,
    offsets: Seq<Option<FileOffset>>,
    node: MergedNodeView,
    pos: int,
)
    requires
        nodes.len() == offsets.len(),
        0 <= pos,
        pos + node_layout(nodes, offsets, node, pos).bytes.len() <= MAX_FILE_LEN,
        packed(offsets, pos + 27),
    ensures
        ({
            let l = node_layout(nodes, offsets, node, pos);
            packed(l.offsets, pos + l.bytes.len())
        }),
    decreases unassigned(offsets), 4int, 0int,
{
    lemma_node_assigned(nodes, offsets, node, pos);
    let parent = lazy_layout(nodes, offsets, node.parent, pos + 27);
    let at_child = pos + 27 + parent.bytes.len();
    let child = lazy_layout(nodes, parent.offsets, node.child, at_child);
    let at_neighbors = at_child + child.bytes.len();
    let neighbors = entries_layout(
        nodes,
        child.offsets,
        eager_entries(node.neighbors),
        false,
        at_neighbors,
    );
    let at_versions = at_neighbors + neighbors.bytes.len();
    let versions = entries_layout(
        nodes,
        neighbors.offsets,
        keyed_entries(node.versions),
        false,
        at_versions,
    );
    lemma_node_record_len(node);
    let l = node_layout(nodes, offsets, node, pos);
    assert(l.bytes.len() == 27 + parent.bytes.len() + child.bytes.len() + neighbors.bytes.len()
        + versions.bytes.len());
    lemma_lazy_packed(nodes, offsets, node.parent, pos + 27);
    lemma_grown_unassigned(offsets, parent.offsets, pos + 27, parent.bytes.len() as int);
    lemma_lazy_packed(nodes, parent.offsets, node.child, at_child);
    lemma_grown_twice(
        offsets,
        parent.offsets,
        child.offsets,
        pos + 27,
        parent.bytes.len() as int,
        child.bytes.len() as int,
    );
    lemma_grown_unassigned(
        offsets,
        child.offsets,
        pos + 27,
        (parent.bytes.len() + child.bytes.len()) as int,
    );
    lemma_entries_packed(nodes, child.offsets, eager_entries(node.neighbors), false, at_neighbors);
    lemma_grown_twice(
        offsets,
        child.offsets,
        neighbors.offsets,
        pos + 27,
        (parent.bytes.len() + child.bytes.len()) as int,
        neighbors.bytes.len() as int,
    );
    lemma_grown_unassigned(
        offsets,
        neighbors.offsets,
        pos + 27,
        (parent.bytes.len() + child.bytes.len() + neighbors.bytes.len()) as int,
    );
    lemma_entries_packed(
        nodes,
        neighbors.offsets,
        keyed_entries(node.versions),
        false,
        at_versions,
    );
}

/// A collection that is written behind every offset of a packed table
/// leaves the table packed.
pub proof fn lemma_entries_packed(
    nodes: Seq<MergedNodeView>,
    offsets: Seq<Option<FileOffset>>,
    entries: Seq<EntryView>,
    direct: bool,
    pos: int,
)
    requires
        nodes.len() == offsets.len(),
        0 <= pos,
        pos + entries_layout(nodes, offsets, entries, direct, pos).bytes.len() <= MAX_FILE_LEN,
        packed(offsets, pos),
    ensures
        ({
            let l = entries_layout(nodes, offsets, entries, direct, pos);
            packed(l.offsets, pos + l.bytes.len())
        }),
    decreases unassigned(offsets), 3int, 0int,
{
    lemma_entries_layout(nodes, offsets, entries, direct, pos);
    if entries.len() > 0 {
        lemma_chunks_packed(nodes, offsets, entries, direct, pos);
    }
}

/// A chain of chunks that is written behind every offset of a packed table
/// leaves the table packed.
pub proof fn lemma_chunks_packed(
    nodes: Seq<MergedNodeView>,
    offsets: Seq<Option<FileOffset>>,
    entries: Seq<EntryView>,
    direct: bool,
    pos: int,
)
    requires
        nodes.len() == offsets.len(),
        0 <= pos,
        pos + chunks_layout(nodes, offsets, entries, direct, pos).bytes.len() <= MAX_FILE_LEN,
        packed(offsets, pos),
    ensures
        ({
            let l = chunks_layout(nodes, offsets, entries, direct, pos);
            packed(l.offsets, pos + l.bytes.len())
        }),
    decreases unassigned(offsets), 2int, entries.len(),
{
    lemma_chunks_layout(nodes, offsets, entries, direct, pos);
    if entries.len() > 0 {
        let k = if entries.len() < 5 {
            entries.len() as int
        } else {
            5
        };
        let mine = entries.subrange(0, k);
        let body = items_layout(nodes, offsets, mine, direct, pos + 24);
        let next = pos + 24 + body.bytes.len();
        let rest = entries.subrange(k, entries.len() as int);
        let link = if rest.len() == 0 {
            u32::MAX
        } else {
            next as u32
        };
        lemma_items_slots(nodes, offsets, mine, direct, pos + 24);
        lemma_chunk_head(body.slots, link);
        lemma_items_assigned(nodes, offsets, mine, direct, pos + 24);
        lemma_grown_unassigned(offsets, body.offsets, pos + 24, body.bytes.len() as int);
        lemma_items_packed(nodes, offsets, mine, direct, pos + 24);
        lemma_chunks_packed(nodes, body.offsets, rest, direct, next);
    }
}

/// The entries of a chunk that are written behind every offset of a packed
/// table leave the table packed.
pub proof fn lemma_items_packed(
    nodes: Seq<MergedNodeView>,
    offsets: Seq<Option<FileOffset>>,
    items: Seq<EntryView>,
    direct: bool,
    pos: int,
)
    requires
        nodes.len() == offsets.len(),
        0 <= pos,
        pos + items_layout(nodes, offsets, items, direct, pos).bytes.len() <= MAX_FILE_LEN,
        packed(offsets, pos),
    ensures
        ({
            let l = items_layout(nodes, offsets, items, direct, pos);
            packed(l.offsets, pos + l.bytes.len())
        }),
    decreases unassigned(offsets), 1int, items.len(),
{
    lemma_items_layout(nodes, offsets, items, direct, pos);
    if items.len() > 0 {
        let first = entry_layout(nodes, offsets, items[0], direct, pos);
        lemma_entry_assigned(nodes, offsets, items[0], direct, pos);
        lemma_grown_unassigned(offsets, first.offsets, pos, first.bytes.len() as int);
        lemma_entry_packed(nodes, offsets, items[0], direct, pos);
        lemma_items_packed(
            nodes,
            first.offsets,
            items.drop_first(),
            direct,
            pos + first.bytes.len(),
        );
    }
}

/// An entry that is written behind every offset of a packed table leaves
/// the table packed.
pub proof fn lemma_entry_packed(
    nodes: Seq<MergedNodeView>,
    offsets: Seq<Option<FileOffset>>,
    entry: EntryView,
    direct: bool,
    pos: int,
)
    requires
        nodes.len() == offsets.len(),
        0 <= pos,
        pos + entry_layout(nodes, offsets, entry, direct, pos).bytes.len() <= MAX_FILE_LEN,
        packed(offsets, pos),
    ensures
        ({
            let l = entry_layout(nodes, offsets, entry, direct, pos);
            packed(l.offsets, pos + l.bytes.len())
        }),
    decreases unassigned(offsets), 0int, 1int,
{
    lemma_le_round_trip();
    lemma_entry_layout(nodes, offsets, entry, direct, pos);
    lemma_entry_target(nodes, offsets, entry, direct, pos);
    let at = if direct {
        pos
    } else {
        pos + entry.prefix.len() + 4
    };
    lemma_lazy_packed(nodes, offsets, entry.item, at);
}

} // verus!
