//! The offsets that a write gives out.
//!
//! A write never changes an offset that a node has. The offsets that it
//! gives to nodes lie in the bytes that it writes. And the offset written
//! for an item is the offset that the item has once the write is over.

use crate::models::custom_buffered_writer::MAX_FILE_LEN;
use crate::models::endian::lemma_le_round_trip;
use crate::models::lazy_load::LazyItem;
use crate::models::node_arena::lazy_offset;
use crate::models::serializer::layout::{
    carried, chunks_layout, eager_entries, entries_layout, entry_layout, entry_target, items_layout,
    keyed_entries, lazy_layout, lemma_chunks_layout, lemma_entries_layout, lemma_entry_layout,
    lemma_entry_target, lemma_items_layout, lemma_lazy_layout, lemma_node_layout,
    lemma_unassigned_update, node_layout, node_record, prop_fields, unassigned, EntryView,
};
use crate::models::serializer::write::{lemma_chunk_head, lemma_items_slots};
use crate::models::types::{FileOffset, MergedNodeView};
use vstd::prelude::*;

verus! {

/// `after` keeps every offset of `before`, and every offset that it adds
/// lies in the `len` bytes from `pos` on.
pub open spec fn grown(
    before: Seq<Option<FileOffset>>,
    after: Seq<Option<FileOffset>>,
    pos: int,
    len: int,
) -> bool {
    &&& after.len() == before.len()
    &&& forall|h: int|
        0 <= h < before.len() && (#[trigger] before[h]) is Some ==> after[h] == before[h]
    &&& forall|h: int|
        0 <= h < before.len() && before[h] is None && (#[trigger] after[h]) is Some ==> pos
            <= after[h].unwrap() < pos + len
}

/// The offset that is written for an item whose offset is `offset`.
pub open spec fn offset_or_absent(offset: Option<FileOffset>) -> u32 {
    match offset {
        Some(o) => o,
        None => u32::MAX,
    }
}

/// A table that has grown has no more nodes without an offset.
pub proof fn lemma_grown_unassigned(
    before: Seq<Option<FileOffset>>,
    after: Seq<Option<FileOffset>>,
    pos: int,
    len: int,
)
    requires
        grown(before, after, pos, len),
    ensures
        unassigned(after) <= unassigned(before),
        carried(before, after) == after,
    decreases before.len(),
{
    if before.len() > 0 {
        assert(before.last() == before[before.len() - 1]);
        assert(after.last() == after[after.len() - 1]);
        assert(grown(before.drop_last(), after.drop_last(), pos, len)) by {
            assert forall|h: int|
                0 <= h < before.drop_last().len() && (#[trigger] before.drop_last()[h])
                    is Some implies after.drop_last()[h] == before.drop_last()[h] by {
                assert(before[h] is Some);
            }
            assert forall|h: int|
                0 <= h < before.drop_last().len() && before.drop_last()[h] is None && (
                #[trigger] after.drop_last()[h]) is Some implies pos
                <= after.drop_last()[h].unwrap() < pos + len by {
                assert(after[h] is Some);
            }
        }
        lemma_grown_unassigned(before.drop_last(), after.drop_last(), pos, len);
    }
}

/// Growth after growth is growth.
pub proof fn lemma_grown_twice(
    a: Seq<Option<FileOffset>>,
    b: Seq<Option<FileOffset>>,
    c: Seq<Option<FileOffset>>,
    pos: int,
    first: int,
    second: int,
)
    requires
        0 <= first,
        0 <= second,
        grown(a, b, pos, first),
        grown(b, c, pos + first, second),
    ensures
        grown(a, c, pos, first + second),
{
    assert forall|h: int| 0 <= h < a.len() && (#[trigger] a[h]) is Some implies c[h] == a[h] by {
        assert(b[h] == a[h]);
        assert(b[h] is Some);
    }
    assert forall|h: int| 0 <= h < a.len() && a[h] is None && (#[trigger] c[h]) is Some implies pos
        <= c[h].unwrap() < pos + first + second by {
        if b[h] is Some {
            assert(c[h] == b[h]);
        }
    }
}

/// An item keeps its offset when the table grows, and an item that cannot
/// get an offset stays without.
pub proof fn lemma_lazy_offset_grown(
    before: Seq<Option<FileOffset>>,
    after: Seq<Option<FileOffset>>,
    pos: int,
    len: int,
    item: LazyItem,
)
    requires
        grown(before, after, pos, len),
    ensures
        lazy_offset(before, item) is Some ==> lazy_offset(after, item) == lazy_offset(
            before,
            item,
        ),
        item.data() is None || item.data().unwrap() >= before.len() ==> lazy_offset(after, item)
            == lazy_offset(before, item),
{
    if item.data() is Some && item.data().unwrap() < before.len() {
        let h = item.data().unwrap() as int;
        if before[h] is Some {
            assert(after[h] == before[h]);
        }
    }
}

/// What a write of a lazy item does to the offsets, and what it returns.
pub proof fn lemma_lazy_assigned(
    nodes: Seq<MergedNodeView>,
    offsets: Seq<Option<FileOffset>>,
    item: LazyItem,
    pos: int,
)
    requires
        nodes.len() == offsets.len(),
        0 <= pos,
        pos + lazy_layout(nodes, offsets, item, pos).bytes.len() <= MAX_FILE_LEN,
    ensures
        ({
            let l = lazy_layout(nodes, offsets, item, pos);
            &&& grown(offsets, l.offsets, pos, l.bytes.len() as int)
            &&& l.value == offset_or_absent(lazy_offset(l.offsets, item))
            &&& lazy_offset(l.offsets, item) is Some || item.data() is None
                || item.data().unwrap() >= offsets.len()
        }),
    decreases unassigned(offsets), 0int, 0int,
{
    lemma_lazy_layout(nodes, offsets, item, pos);
    let l = lazy_layout(nodes, offsets, item, pos);
    if lazy_offset(offsets, item) is None && item.data() is Some && item.data().unwrap()
        < nodes.len() {
        let h = item.data().unwrap() as int;
        let marked = offsets.update(h, Some(pos as u32));
        lemma_unassigned_update(offsets, h, pos as u32);
        lemma_node_assigned(nodes, marked, nodes[h], pos);
        assert(l.offsets[h] == marked[h]);
        assert forall|i: int|
            0 <= i < offsets.len() && (#[trigger] offsets[i]) is Some implies l.offsets[i]
                == offsets[i] by {
            assert(marked[i] == offsets[i]);
        }
        assert forall|i: int|
            0 <= i < offsets.len() && offsets[i] is None && (#[trigger] l.offsets[i])
                is Some implies pos <= l.offsets[i].unwrap() < pos + l.bytes.len() by {
            if i != h {
                assert(marked[i] is None);
            }
        }
    }
}

/// What a write of a node does to the offsets, and what it returns.
pub proof fn lemma_node_assigned(
    nodes: Seq<MergedNodeView>,
    offsets: Seq<Option<FileOffset>>,
    node: MergedNodeView,
    pos: int,
)
    requires
        nodes.len() == offsets.len(),
        0 <= pos,
        pos + node_layout(nodes, offsets, node, pos).bytes.len() <= MAX_FILE_LEN,
    ensures
        ({
            let l = node_layout(nodes, offsets, node, pos);
            let parent = lazy_layout(nodes, offsets, node.parent, pos + 27);
            let child = lazy_layout(
                nodes,
                parent.offsets,
                node.child,
                pos + 27 + parent.bytes.len(),
            );
            let neighbors = entries_layout(
                nodes,
                child.offsets,
                eager_entries(node.neighbors),
                false,
                pos + 27 + parent.bytes.len() + child.bytes.len(),
            );
            let versions = entries_layout(
                nodes,
                neighbors.offsets,
                keyed_entries(node.versions),
                false,
                pos + 27 + parent.bytes.len() + child.bytes.len() + neighbors.bytes.len(),
            );
            &&& grown(offsets, l.offsets, pos, l.bytes.len() as int)
            &&& l.bytes.len() >= 27
            &&& l.value == pos
            &&& l.bytes == node_record(
                node.version_id,
                node.hnsw_level,
                prop_fields(node.prop),
                parent.value,
                child.value,
                neighbors.value,
                versions.value,
            ) + parent.bytes + child.bytes + neighbors.bytes + versions.bytes
            &&& l.offsets == versions.offsets
            &&& grown(offsets, parent.offsets, pos + 27, parent.bytes.len() as int)
            &&& grown(
                parent.offsets,
                child.offsets,
                pos + 27 + parent.bytes.len(),
                child.bytes.len() as int,
            )
            &&& grown(
                child.offsets,
                neighbors.offsets,
                pos + 27 + parent.bytes.len() + child.bytes.len(),
                neighbors.bytes.len() as int,
            )
            &&& grown(
                neighbors.offsets,
                versions.offsets,
                pos + 27 + parent.bytes.len() + child.bytes.len() + neighbors.bytes.len(),
                versions.bytes.len() as int,
            )
            &&& parent.value == offset_or_absent(lazy_offset(parent.offsets, node.parent))
            &&& child.value == offset_or_absent(lazy_offset(child.offsets, node.child))
            &&& targets_assigned(
                neighbors.targets,
                neighbors.offsets,
                eager_entries(node.neighbors),
            )
            &&& targets_assigned(versions.targets, versions.offsets, keyed_entries(node.versions))
        }),
    decreases unassigned(offsets), 4int, 0int,
{
    lemma_node_layout(nodes, offsets, node, pos);
    let parent = lazy_layout(nodes, offsets, node.parent, pos + 27);
    lemma_node_record_len(node);
    lemma_lazy_assigned(nodes, offsets, node.parent, pos + 27);
    lemma_grown_unassigned(offsets, parent.offsets, pos + 27, parent.bytes.len() as int);
    let at_child = pos + 27 + parent.bytes.len();
    let child = lazy_layout(nodes, parent.offsets, node.child, at_child);
    lemma_lazy_assigned(nodes, parent.offsets, node.child, at_child);
    lemma_grown_twice(
        offsets,
        parent.offsets,
        child.offsets,
        pos + 27,
        parent.bytes.len() as int,
        child.bytes.len() as int,
    );
    lemma_grown_unassigned(
        offsets,
        child.offsets,
        pos + 27,
        (parent.bytes.len() + child.bytes.len()) as int,
    );
    lemma_grown_unassigned(parent.offsets, child.offsets, at_child, child.bytes.len() as int);
    let at_neighbors = at_child + child.bytes.len();
    let neighbors = entries_layout(
        nodes,
        child.offsets,
        eager_entries(node.neighbors),
        false,
        at_neighbors,
    );
    lemma_entries_assigned(
        nodes,
        child.offsets,
        eager_entries(node.neighbors),
        false,
        at_neighbors,
    );
    lemma_grown_twice(
        offsets,
        child.offsets,
        neighbors.offsets,
        pos + 27,
        (parent.bytes.len() + child.bytes.len()) as int,
        neighbors.bytes.len() as int,
    );
    lemma_grown_unassigned(
        offsets,
        neighbors.offsets,
        pos + 27,
        (parent.bytes.len() + child.bytes.len() + neighbors.bytes.len()) as int,
    );
    lemma_grown_unassigned(
        child.offsets,
        neighbors.offsets,
        at_neighbors,
        neighbors.bytes.len() as int,
    );
    let at_versions = at_neighbors + neighbors.bytes.len();
    let versions = entries_layout(
        nodes,
        neighbors.offsets,
        keyed_entries(node.versions),
        false,
        at_versions,
    );
    lemma_entries_assigned(
        nodes,
        neighbors.offsets,
        keyed_entries(node.versions),
        false,
        at_versions,
    );
    lemma_grown_twice(
        offsets,
        neighbors.offsets,
        versions.offsets,
        pos + 27,
        (parent.bytes.len() + child.bytes.len() + neighbors.bytes.len()) as int,
        versions.bytes.len() as int,
    );
    let l = node_layout(nodes, offsets, node, pos);
    assert forall|h: int|
        0 <= h < offsets.len() && offsets[h] is None && (#[trigger] l.offsets[h])
            is Some implies pos <= l.offsets[h].unwrap() < pos + l.bytes.len() by {}
}

/// The record of a node has 27 bytes.
pub proof fn lemma_node_record_len(node: MergedNodeView)
    ensures
        forall|a: u32, b: u32, c: u32, d: u32|
            (#[trigger] node_record(
                node.version_id,
                node.hnsw_level,
                prop_fields(node.prop),
                a,
                b,
                c,
                d,
            )).len() == 27,
{
    lemma_le_round_trip();
}

/// The offset written for each entry is the offset that the item of the
/// entry has in `offsets`, or the absent offset where it has none.
pub open spec fn targets_assigned(
    targets: Seq<u32>,
    offsets: Seq<Option<FileOffset>>,
    entries: Seq<EntryView>,
) -> bool {
    &&& targets.len() == entries.len()
    &&& forall|i: int|
        0 <= i < entries.len() ==> #[trigger] targets[i] == offset_or_absent(
            lazy_offset(offsets, entries[i].item),
        )
}

/// The offsets written for entries stay their offsets when the table grows.
pub proof fn lemma_targets_grown(
    targets: Seq<u32>,
    before: Seq<Option<FileOffset>>,
    after: Seq<Option<FileOffset>>,
    pos: int,
    len: int,
    entries: Seq<EntryView>,
)
    requires
        targets_assigned(targets, before, entries),
        grown(before, after, pos, len),
        resolved(before, entries),
    ensures
        targets_assigned(targets, after, entries),
{
    assert forall|i: int| 0 <= i < entries.len() implies #[trigger] targets[i] == offset_or_absent(
        lazy_offset(after, entries[i].item),
    ) by {
        lemma_lazy_offset_grown(before, after, pos, len, entries[i].item);
    }
}

/// Every item of `entries` that can have an offset in `offsets` has one.
pub open spec fn resolved(offsets: Seq<Option<FileOffset>>, entries: Seq<EntryView>) -> bool {
    forall|i: int|
        0 <= i < entries.len() ==> lazy_offset(offsets, (#[trigger] entries[i]).item) is Some
            || entries[i].item.data() is None || entries[i].item.data().unwrap() >= offsets.len()
}

/// What a write of a collection does to the offsets.
pub proof fn lemma_entries_assigned(
    nodes: Seq<MergedNodeView>,
    offsets: Seq<Option<FileOffset>>,
    entries: Seq<EntryView>,
    direct: bool,
    pos: int,
)
    requires
        nodes.len() == offsets.len(),
        0 <= pos,
        pos + entries_layout(nodes, offsets, entries, direct, pos).bytes.len() <= MAX_FILE_LEN,
    ensures
        ({
            let l = entries_layout(nodes, offsets, entries, direct, pos);
            &&& grown(offsets, l.offsets, pos, l.bytes.len() as int)
            &&& targets_assigned(l.targets, l.offsets, entries)
            &&& resolved(l.offsets, entries)
        }),
    decreases unassigned(offsets), 3int, 0int,
{
    lemma_entries_layout(nodes, offsets, entries, direct, pos);
    if entries.len() > 0 {
        lemma_chunks_assigned(nodes, offsets, entries, direct, pos);
    }
}

/// What a write of a chain of chunks does to the offsets.
pub proof fn lemma_chunks_assigned(
    nodes: Seq<MergedNodeView>,
    offsets: Seq<Option<FileOffset>>,
    entries: Seq<EntryView>,
    direct: bool,
    pos: int,
)
    requires
        nodes.len() == offsets.len(),
        0 <= pos,
        pos + chunks_layout(nodes, offsets, entries, direct, pos).bytes.len() <= MAX_FILE_LEN,
    ensures
        ({
            let l = chunks_layout(nodes, offsets, entries, direct, pos);
            &&& grown(offsets, l.offsets, pos, l.bytes.len() as int)
            &&& targets_assigned(l.targets, l.offsets, entries)
            &&& resolved(l.offsets, entries)
        }),
    decreases unassigned(offsets), 2int, entries.len(),
{
    lemma_chunks_layout(nodes, offsets, entries, direct, pos);
    let l = chunks_layout(nodes, offsets, entries, direct, pos);
    if entries.len() > 0 {
        let k = if entries.len() < 5 {
            entries.len() as int
        } else {
            5
        };
        let mine = entries.subrange(0, k);
        let body = items_layout(nodes, offsets, mine, direct, pos + 24);
        let next = pos + 24 + body.bytes.len();
        let rest = entries.subrange(k, entries.len() as int);
        let link = if rest.len() == 0 {
            u32::MAX
        } else {
            next as u32
        };
        lemma_items_slots(nodes, offsets, mine, direct, pos + 24);
        lemma_chunk_head(body.slots, link);
        lemma_items_assigned(nodes, offsets, mine, direct, pos + 24);
        lemma_grown_unassigned(offsets, body.offsets, pos + 24, body.bytes.len() as int);
        let tail = chunks_layout(nodes, body.offsets, rest, direct, next);
        lemma_chunks_assigned(nodes, body.offsets, rest, direct, next);
        lemma_grown_twice(
            offsets,
            body.offsets,
            tail.offsets,
            pos + 24,
            body.bytes.len() as int,
            tail.bytes.len() as int,
        );
        lemma_targets_grown(
            body.targets,
            body.offsets,
            tail.offsets,
            next,
            tail.bytes.len() as int,
            mine,
        );
        assert forall|i: int| 0 <= i < entries.len() implies #[trigger] l.targets[i]
            == offset_or_absent(lazy_offset(l.offsets, entries[i].item)) by {
            if i < k {
                assert(l.targets[i] == body.targets[i]);
                assert(entries[i] == mine[i]);
            } else {
                assert(l.targets[i] == tail.targets[i - k]);
                assert(entries[i] == rest[i - k]);
            }
        }
        assert forall|i: int| 0 <= i < entries.len() implies lazy_offset(
            l.offsets,
            (#[trigger] entries[i]).item,
        ) is Some || entries[i].item.data() is None || entries[i].item.data().unwrap()
            >= l.offsets.len() by {
            if i < k {
                assert(entries[i] == mine[i]);
                lemma_lazy_offset_grown(
                    body.offsets,
                    tail.offsets,
                    next,
                    tail.bytes.len() as int,
                    mine[i].item,
                );
            } else {
                assert(entries[i] == rest[i - k]);
            }
        }
        assert forall|h: int|
            0 <= h < offsets.len() && offsets[h] is None && (#[trigger] l.offsets[h])
                is Some implies pos <= l.offsets[h].unwrap() < pos + l.bytes.len() by {}
    }
}

/// What a write of the entries of a chunk does to the offsets.
pub proof fn lemma_items_assigned(
    nodes: Seq<MergedNodeView>,
    offsets: Seq<Option<FileOffset>>,
    items: Seq<EntryView>,
    direct: bool,
    pos: int,
)
    requires
        nodes.len() == offsets.len(),
        0 <= pos,
        pos + items_layout(nodes, offsets, items, direct, pos).bytes.len() <= MAX_FILE_LEN,
    ensures
        ({
            let l = items_layout(nodes, offsets, items, direct, pos);
            &&& grown(offsets, l.offsets, pos, l.bytes.len() as int)
            &&& targets_assigned(l.targets, l.offsets, items)
            &&& resolved(l.offsets, items)
        }),
    decreases unassigned(offsets), 1int, items.len(),
{
    lemma_items_layout(nodes, offsets, items, direct, pos);
    let l = items_layout(nodes, offsets, items, direct, pos);
    if items.len() > 0 {
        let first = entry_layout(nodes, offsets, items[0], direct, pos);
        let target = entry_target(nodes, offsets, items[0], direct, pos);
        lemma_entry_assigned(nodes, offsets, items[0], direct, pos);
        lemma_grown_unassigned(offsets, first.offsets, pos, first.bytes.len() as int);
        let rest = items_layout(
            nodes,
            first.offsets,
            items.drop_first(),
            direct,
            pos + first.bytes.len(),
        );
        lemma_items_assigned(
            nodes,
            first.offsets,
            items.drop_first(),
            direct,
            pos + first.bytes.len(),
        );
        lemma_grown_twice(
            offsets,
            first.offsets,
            rest.offsets,
            pos,
            first.bytes.len() as int,
            rest.bytes.len() as int,
        );
        lemma_lazy_offset_grown(
            first.offsets,
            rest.offsets,
            pos + first.bytes.len(),
            rest.bytes.len() as int,
            items[0].item,
        );
        assert forall|i: int| 0 <= i < items.len() implies #[trigger] l.targets[i]
            == offset_or_absent(lazy_offset(l.offsets, items[i].item)) by {
            if i > 0 {
                assert(l.targets[i] == rest.targets[i - 1]);
                assert(items[i] == items.drop_first()[i - 1]);
            }
        }
        assert forall|i: int| 0 <= i < items.len() implies lazy_offset(
            l.offsets,
            (#[trigger] items[i]).item,
        ) is Some || items[i].item.data() is None || items[i].item.data().unwrap()
            >= l.offsets.len() by {
            if i > 0 {
                assert(items[i] == items.drop_first()[i - 1]);
            }
        }
    }
}

/// What a write of one entry does to the offsets.
pub proof fn lemma_entry_assigned(
    nodes: Seq<MergedNodeView>,
    offsets: Seq<Option<FileOffset>>,
    entry: EntryView,
    direct: bool,
    pos: int,
)
    requires
        nodes.len() == offsets.len(),
        0 <= pos,
        pos + entry_layout(nodes, offsets, entry, direct, pos).bytes.len() <= MAX_FILE_LEN,
    ensures
        ({
            let l = entry_layout(nodes, offsets, entry, direct, pos);
            let target = entry_target(nodes, offsets, entry, direct, pos);
            &&& grown(offsets, l.offsets, pos, l.bytes.len() as int)
            &&& target == offset_or_absent(lazy_offset(l.offsets, entry.item))
            &&& lazy_offset(l.offsets, entry.item) is Some || entry.item.data() is None
                || entry.item.data().unwrap() >= offsets.len()
        }),
    decreases unassigned(offsets), 0int, 1int,
{
    lemma_le_round_trip();
    lemma_entry_layout(nodes, offsets, entry, direct, pos);
    lemma_entry_target(nodes, offsets, entry, direct, pos);
    let at = if direct {
        pos
    } else {
        pos + entry.prefix.len() + 4
    };
    lemma_lazy_assigned(nodes, offsets, entry.item, at);
    lemma_lazy_layout(nodes, offsets, entry.item, at);
    let l = entry_layout(nodes, offsets, entry, direct, pos);
    assert forall|h: int|
        0 <= h < offsets.len() && offsets[h] is None && (#[trigger] l.offsets[h])
            is Some implies pos <= l.offsets[h].unwrap() < pos + l.bytes.len() by {}
}

} // verus!
