//! What the bytes of a layout are read as.
//!
//! The lemmas here take the bytes that `layout` gives for a value, lying
//! somewhere in a file, and say what is read there.

use crate::models::cache_loader::{chain_slots, header_at, slots_upto, NodeHeader};
use crate::models::common::LoadError;
use crate::models::custom_buffered_writer::MAX_FILE_LEN;
use crate::models::endian::{
    le16, le32, lemma_le_round_trip, lemma_read16_of, lemma_read32_of, read32,
};
use crate::models::serializer::layout::{
    carried, chunk_head, chunks_layout, entry_layout, entry_target, items_layout,
    lemma_chunks_layout, lemma_entry_layout, lemma_entry_target, lemma_items_layout, node_record,
    padded, EntryView,
};
use crate::models::serializer::lazy_item_map::record_at;
use crate::models::serializer::write::{
    lemma_chunk_head, lemma_chunks_start, lemma_items_slots, lemma_slots_bytes_at,
    lemma_slots_bytes_len,
};
use crate::models::types::{FileOffset, MergedNodeView};
use vstd::prelude::*;

verus! {

/// The bytes `x` lie at `pos` in `file`.
pub open spec fn lies_at(file: Seq<u8>, pos: int, x: Seq<u8>) -> bool {
    &&& 0 <= pos
    &&& pos + x.len() <= file.len()
    &&& file.subrange(pos, pos + x.len()) == x
}

/// Where two parts lie one behind the other, each of them lies.
pub proof fn lemma_lies_at_parts(file: Seq<u8>, pos: int, a: Seq<u8>, b: Seq<u8>)
    requires
        lies_at(file, pos, a + b),
    ensures
        lies_at(file, pos, a),
        lies_at(file, pos + a.len(), b),
{
    let whole = file.subrange(pos, pos + (a + b).len());
    assert(file.subrange(pos, pos + a.len()) =~= whole.subrange(0, a.len() as int));
    assert(whole.subrange(0, a.len() as int) =~= a);
    assert(file.subrange(pos + a.len(), pos + a.len() + b.len()) =~= whole.subrange(
        a.len() as int,
        (a + b).len() as int,
    ));
    assert(whole.subrange(a.len() as int, (a + b).len() as int) =~= b);
}

/// A number that lies in a file is read there.
pub proof fn lemma_read32_lies(file: Seq<u8>, pos: int, v: u32)
    requires
        lies_at(file, pos, le32(v)),
    ensures
        read32(file, pos) == v,
        pos + 4 <= file.len(),
{
    lemma_le_round_trip();
    lemma_read32_of(file, pos, v);
}

/// The record that lies at `pos` is read as the fields it was made of.
pub proof fn lemma_header_decode(
    file: Seq<u8>,
    pos: int,
    version_id: u16,
    hnsw_level: u8,
    prop: (FileOffset, u32),
    parent: u32,
    child: u32,
    neighbors: u32,
    versions: u32,
)
    requires
        lies_at(
            file,
            pos,
            node_record(version_id, hnsw_level, prop, parent, child, neighbors, versions),
        ),
    ensures
        pos + 27 <= file.len(),
        header_at(file, pos) == (NodeHeader {
            version_id,
            hnsw_level,
            prop,
            parent,
            child,
            neighbors,
            versions,
        }),
{
    lemma_le_round_trip();
    let record = node_record(version_id, hnsw_level, prop, parent, child, neighbors, versions);
    assert(record.len() == 27);
    assert(file.subrange(pos, pos + 2) =~= record.subrange(0, 2));
    assert(record.subrange(0, 2) =~= le16(version_id));
    lemma_read16_of(file, pos, version_id);
    assert(file[pos + 2] == record[2]);
    assert(file.subrange(pos + 3, pos + 7) =~= record.subrange(3, 7));
    assert(record.subrange(3, 7) =~= le32(prop.0));
    lemma_read32_of(file, pos + 3, prop.0);
    assert(file.subrange(pos + 7, pos + 11) =~= record.subrange(7, 11));
    assert(record.subrange(7, 11) =~= le32(prop.1));
    lemma_read32_of(file, pos + 7, prop.1);
    assert(file.subrange(pos + 11, pos + 15) =~= record.subrange(11, 15));
    assert(record.subrange(11, 15) =~= le32(parent));
    lemma_read32_of(file, pos + 11, parent);
    assert(file.subrange(pos + 15, pos + 19) =~= record.subrange(15, 19));
    assert(record.subrange(15, 19) =~= le32(child));
    lemma_read32_of(file, pos + 15, child);
    assert(file.subrange(pos + 19, pos + 23) =~= record.subrange(19, 23));
    assert(record.subrange(19, 23) =~= le32(neighbors));
    lemma_read32_of(file, pos + 19, neighbors);
    assert(file.subrange(pos + 23, pos + 27) =~= record.subrange(23, 27));
    assert(record.subrange(23, 27) =~= le32(versions));
    lemma_read32_of(file, pos + 23, versions);
}

/// The head of a chunk that lies at `pos` is read as its slots and its link.
pub proof fn lemma_chunk_head_decode(file: Seq<u8>, pos: int, slots: Seq<u32>, link: u32)
    requires
        slots.len() <= 5,
        lies_at(file, pos, chunk_head(slots, link)),
        forall|j: int| 0 <= j < slots.len() ==> slots[j] != u32::MAX,
    ensures
        pos + 24 <= file.len(),
        slots_upto(file, pos, 5) == slots,
        read32(file, pos + 20) == link,
{
    lemma_le_round_trip();
    lemma_chunk_head(slots, link);
    let head = chunk_head(slots, link);
    let all = padded(slots);
    lemma_slots_bytes_len(all);
    assert forall|j: int| 0 <= j < 5 implies read32(file, pos + 4 * j) == #[trigger] all[j] by {
        let window = file.subrange(pos + 4 * j, pos + 4 * j + 4);
        assert forall|t: int| 0 <= t < 4 implies window[t] == le32(all[j])[t] by {
            assert(window[t] == head[4 * j + t]);
            lemma_slots_bytes_at(all, 4 * j + t);
            assert((4 * j + t) / 4 == j);
            assert((4 * j + t) % 4 == t);
        }
        assert(window =~= le32(all[j]));
        lemma_read32_of(file, pos + 4 * j, all[j]);
    }
    assert(file.subrange(pos + 20, pos + 24) =~= head.subrange(20, 24));
    assert(head.subrange(20, 24) =~= le32(link));
    lemma_read32_of(file, pos + 20, link);
    reveal_with_fuel(slots_upto, 6);
    assert(all[0] == read32(file, pos + 4 * 0));
    assert(all[1] == read32(file, pos + 4 * 1));
    assert(all[2] == read32(file, pos + 4 * 2));
    assert(all[3] == read32(file, pos + 4 * 3));
    assert(all[4] == read32(file, pos + 4 * 4));
    assert(slots_upto(file, pos, 5) =~= slots);
}

/// An entry lies at its slot: the prefix, then the offset of the item.
pub open spec fn entry_lies(file: Seq<u8>, slot: u32, prefix: Seq<u8>, target: u32) -> bool {
    &&& slot != u32::MAX
    &&& slot + prefix.len() + 4 <= file.len()
    &&& file.subrange(slot as int, slot + prefix.len()) == prefix
    &&& read32(file, slot + prefix.len()) == target
}

/// The entries of a chunk that lie in a file lie at their slots, and the
/// slots are the places behind `pos` at which they were written.
pub proof fn lemma_items_decode(
    nodes: Seq<MergedNodeView>,
    offsets: Seq<Option<FileOffset>>,
    items: Seq<EntryView>,
    pos: int,
    file: Seq<u8>,
)
    requires
        lies_at(file, pos, items_layout(nodes, offsets, items, false, pos).bytes),
        pos + items_layout(nodes, offsets, items, false, pos).bytes.len() <= MAX_FILE_LEN,
    ensures
        ({
            let l = items_layout(nodes, offsets, items, false, pos);
            &&& l.slots.len() == items.len()
            &&& l.targets.len() == items.len()
            &&& forall|i: int|
                0 <= i < items.len() ==> entry_lies(
                    file,
                    #[trigger] l.slots[i],
                    items[i].prefix,
                    l.targets[i],
                )
        }),
    decreases items.len(),
{
    lemma_le_round_trip();
    lemma_items_layout(nodes, offsets, items, false, pos);
    let l = items_layout(nodes, offsets, items, false, pos);
    if items.len() > 0 {
        let first = entry_layout(nodes, offsets, items[0], false, pos);
        let target = entry_target(nodes, offsets, items[0], false, pos);
        lemma_entry_layout(nodes, offsets, items[0], false, pos);
        lemma_entry_target(nodes, offsets, items[0], false, pos);
        let rest = items_layout(
            nodes,
            carried(offsets, first.offsets),
            items.drop_first(),
            false,
            pos + first.bytes.len(),
        );
        lemma_lies_at_parts(file, pos, first.bytes, rest.bytes);
        lemma_items_decode(
            nodes,
            carried(offsets, first.offsets),
            items.drop_first(),
            pos + first.bytes.len(),
            file,
        );
        let prefix = items[0].prefix;
        let behind = first.bytes.subrange(prefix.len() as int + 4, first.bytes.len() as int);
        assert(first.bytes =~= (prefix + le32(target)) + behind);
        lemma_lies_at_parts(file, pos, prefix + le32(target), behind);
        lemma_lies_at_parts(file, pos, prefix, le32(target));
        lemma_read32_lies(file, pos + prefix.len(), target);
        assert forall|i: int| 0 <= i < items.len() implies entry_lies(
            file,
            #[trigger] l.slots[i],
            items[i].prefix,
            l.targets[i],
        ) by {
            if i > 0 {
                assert(l.slots[i] == rest.slots[i - 1]);
                assert(l.targets[i] == rest.targets[i - 1]);
                assert(items[i] == items.drop_first()[i - 1]);
            }
        }
    }
}

/// A chain of chunks that lies in a file is read as the slots of its
/// entries, in their order, and each entry lies at its slot.
pub proof fn lemma_chain_decode(
    nodes: Seq<MergedNodeView>,
    offsets: Seq<Option<FileOffset>>,
    entries: Seq<EntryView>,
    pos: int,
    file: Seq<u8>,
)
    requires
        lies_at(file, pos, chunks_layout(nodes, offsets, entries, false, pos).bytes),
        pos + chunks_layout(nodes, offsets, entries, false, pos).bytes.len() <= MAX_FILE_LEN,
    ensures
        ({
            let l = chunks_layout(nodes, offsets, entries, false, pos);
            &&& l.slots.len() == entries.len()
            &&& l.targets.len() == entries.len()
            &&& forall|i: int|
                0 <= i < entries.len() ==> entry_lies(
                    file,
                    #[trigger] l.slots[i],
                    entries[i].prefix,
                    l.targets[i],
                )
            &&& entries.len() > 0 ==> chain_slots(file, pos as u32) == Ok::<Seq<u32>, LoadError>(
                l.slots,
            )
        }),
    decreases entries.len(),
{
    lemma_chunks_layout(nodes, offsets, entries, false, pos);
    let l = chunks_layout(nodes, offsets, entries, false, pos);
    if entries.len() > 0 {
        let k = if entries.len() < 5 {
            entries.len() as int
        } else {
            5
        };
        let mine = entries.subrange(0, k);
        let body = items_layout(nodes, offsets, mine, false, pos + 24);
        let next = pos + 24 + body.bytes.len();
        let rest = entries.subrange(k, entries.len() as int);
        let tail = chunks_layout(nodes, carried(offsets, body.offsets), rest, false, next);
        let link = if rest.len() == 0 {
            u32::MAX
        } else {
            next as u32
        };
        let head = chunk_head(body.slots, link);
        lemma_items_slots(nodes, offsets, mine, false, pos + 24);
        lemma_chunk_head(body.slots, link);
        lemma_lies_at_parts(file, pos, head + body.bytes, tail.bytes);
        lemma_lies_at_parts(file, pos, head, body.bytes);
        lemma_items_decode(nodes, offsets, mine, pos + 24, file);
        lemma_chain_decode(nodes, carried(offsets, body.offsets), rest, next, file);
        lemma_chunk_head_decode(file, pos, body.slots, link);
        assert forall|i: int| 0 <= i < entries.len() implies entry_lies(
            file,
            #[trigger] l.slots[i],
            entries[i].prefix,
            l.targets[i],
        ) by {
            if i < k {
                assert(l.slots[i] == body.slots[i]);
                assert(l.targets[i] == body.targets[i]);
                assert(entries[i] == mine[i]);
            } else {
                assert(l.slots[i] == tail.slots[i - k]);
                assert(l.targets[i] == tail.targets[i - k]);
                assert(entries[i] == rest[i - k]);
            }
        }
        if rest.len() == 0 {
            assert(tail.slots =~= Seq::<u32>::empty());
            assert(l.slots =~= body.slots);
        } else {
            lemma_chunks_start(
                nodes,
                carried(offsets, body.offsets),
                rest,
                false,
                next,
            );
        }
    }
}

/// The number of chunks of the chain that starts at `chunk`.
pub open spec fn chain_chunks(bytes: Seq<u8>, chunk: u32) -> nat
    decreases bytes.len() - chunk,
{
    match record_at(bytes, chunk, 24) {
        Err(e) => 0,
        Ok(()) => {
            let next = read32(bytes, chunk + 20);
            if next == u32::MAX || next <= chunk || next >= bytes.len() {
                1
            } else {
                1 + chain_chunks(bytes, next)
            }
        },
    }
}

/// A collection fills as many chunks as it takes to hold its entries five
/// to a chunk: six entries lie in two chunks, twelve in three. The chunks
/// are linked one to the next, each behind the one before, and the link
/// of the last is the absent offset.
pub proof fn lemma_chunk_count(
    nodes: Seq<MergedNodeView>,
    offsets: Seq<Option<FileOffset>>,
    entries: Seq<EntryView>,
    pos: int,
    file: Seq<u8>,
)
    requires
        0 <= pos,
        entries.len() > 0,
        lies_at(file, pos, chunks_layout(nodes, offsets, entries, false, pos).bytes),
        pos + chunks_layout(nodes, offsets, entries, false, pos).bytes.len() <= MAX_FILE_LEN,
    ensures
        chain_chunks(file, pos as u32) == (entries.len() + 4) / 5,
    decreases entries.len(),
{
    lemma_chunks_layout(nodes, offsets, entries, false, pos);
    let k = if entries.len() < 5 {
        entries.len() as int
    } else {
        5
    };
    let mine = entries.subrange(0, k);
    let body = items_layout(nodes, offsets, mine, false, pos + 24);
    let next = pos + 24 + body.bytes.len();
    let rest = entries.subrange(k, entries.len() as int);
    let tail = chunks_layout(nodes, carried(offsets, body.offsets), rest, false, next);
    let link = if rest.len() == 0 {
        u32::MAX
    } else {
        next as u32
    };
    let head = chunk_head(body.slots, link);
    lemma_items_slots(nodes, offsets, mine, false, pos + 24);
    lemma_chunk_head(body.slots, link);
    lemma_lies_at_parts(file, pos, head + body.bytes, tail.bytes);
    lemma_lies_at_parts(file, pos, head, body.bytes);
    lemma_items_decode(nodes, offsets, mine, pos + 24, file);
    lemma_chunk_head_decode(file, pos, body.slots, link);
    assert(record_at(file, pos as u32, 24) is Ok);
    if rest.len() > 0 {
        lemma_chunks_start(nodes, carried(offsets, body.offsets), rest, false, next);
        lemma_chunk_count(nodes, carried(offsets, body.offsets), rest, next, file);
        assert(rest.len() == entries.len() - 5);
    }
}

} // verus!
