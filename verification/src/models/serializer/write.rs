//! The writer of the format: placeholders first, offsets patched in later.
//!
//! A record that refers to records behind it is written with placeholders.
//! What it refers to is then written at the cursor, and the writer goes back
//! and puts the offsets in. The functions here are proved to leave the bytes
//! that `layout` gives.

use crate::models::common::StoreError;
use crate::models::custom_buffered_writer::{
    lemma_write_at_end, lemma_write_at_nested, lemma_write_at_reads, write_at, CustomBufferedWriter,
    WriterState, MAX_FILE_LEN,
};
use crate::models::endian::{append_bytes, le32, lemma_le_round_trip, u16_to_le, u32_to_le};
use crate::models::lazy_load::{LazyItem, LazyItemSet, CHUNK_SIZE};
use crate::models::serializer::eager_lazy_item::set_chunk_entries;
use crate::models::serializer::layout::{
    carried, chunk_head, chunks_layout, eager_entries, entries_layout, entry_layout, items_layout,
    keyed_entries, lazy_layout, lemma_chunks_layout, lemma_entries_layout, lemma_entry_layout,
    lemma_items_layout, lemma_lazy_layout, lemma_node_layout, lemma_unassigned_update, node_layout,
    node_record, padded, plain_entries, prop_fields, slots_bytes, unassigned, EntryView, Layout,
    CHUNK_HEAD_SIZE, CHUNK_LINK_AT, NODE_RECORD_SIZE,
};
use crate::models::serializer::lazy_item_map::map_chunk_entries;
use crate::models::types::{node_views, FileOffset, MergedNode, MergedNodeView};
use vstd::prelude::*;

verus! {

/// An entry of a collection, ready to be written.
pub struct ChunkEntry {
    pub prefix: Vec<u8>,
    pub item: LazyItem,
}

impl View for ChunkEntry {
    type V = EntryView;

    open spec fn view(&self) -> EntryView {
        EntryView { prefix: self.prefix@, item: self.item }
    }
}

/// The entries as contracts see them.
pub open spec fn entry_views(entries: Seq<ChunkEntry>) -> Seq<EntryView> {
    entries.map_values(|e: ChunkEntry| e@)
}

/// `w` with `y` put at the absolute position `at`, the cursor left alone.
pub open spec fn patched_at(w: WriterState, at: int, y: Seq<u8>) -> WriterState {
    WriterState { buffer: write_at(w.buffer, at - w.flushed, y), ..w }
}

/// A write went through exactly when the file had room for `bytes`, and
/// then the writer and the table of offsets are as the layout says.
pub open spec fn stored(
    ok: bool,
    bytes: Seq<u8>,
    new_offsets: Seq<Option<FileOffset>>,
    before: WriterState,
    after: WriterState,
    offsets: Seq<Option<FileOffset>>,
) -> bool {
    &&& ok <==> before.position() + bytes.len() <= MAX_FILE_LEN
    &&& ok ==> after == before.written(bytes) && offsets == new_offsets
}

/// A value was written as the layout `l` says: the write went through
/// exactly when the file had room, and then the result is the value of the
/// layout.
pub open spec fn serialized(
    r: Result<u32, StoreError>,
    l: Layout,
    before: WriterState,
    after: WriterState,
    offsets: Seq<Option<FileOffset>>,
) -> bool {
    &&& stored(r is Ok, l.bytes, l.offsets, before, after, offsets)
    &&& r matches Ok(v) ==> v == l.value
    &&& r matches Err(e) ==> e == StoreError::FileTooLarge
}

/// Writing nothing changes nothing.
pub proof fn lemma_written_nothing(w: WriterState)
    requires
        w.wf(),
    ensures
        w.written(Seq::empty()) == w,
{
    reveal(write_at);
    assert(write_at(w.buffer, w.cursor as int, Seq::empty()) =~= w.buffer);
}

/// Two writes in a row are one write of both.
pub proof fn lemma_written_twice(w: WriterState, a: Seq<u8>, b: Seq<u8>)
    requires
        w.wf(),
    ensures
        w.written(a).written(b) == w.written(a + b),
{
    lemma_write_at_nested(w.buffer, w.cursor as int, a, a.len() as int, b);
    lemma_write_at_end(a, b);
}

/// A patch inside what was just written is a write of the patched bytes.
pub proof fn lemma_patched(w: WriterState, x: Seq<u8>, k: int, y: Seq<u8>)
    requires
        w.wf(),
        0 <= k,
        k + y.len() <= x.len(),
    ensures
        patched_at(w.written(x), w.position() + k, y) == w.written(write_at(x, k, y)),
        write_at(x, k, y).len() == x.len(),
{
    lemma_write_at_nested(w.buffer, w.cursor as int, x, k, y);
    lemma_write_at_reads(x, k, y);
}

/// A patch that ends inside the first of two parts patches that part.
pub proof fn lemma_patch_in_front(a: Seq<u8>, b: Seq<u8>, k: int, y: Seq<u8>)
    requires
        0 <= k,
        k + y.len() <= a.len(),
    ensures
        write_at(a + b, k, y) == write_at(a, k, y) + b,
{
    reveal(write_at);
    assert(write_at(a + b, k, y) =~= write_at(a, k, y) + b);
}

/// A record written with placeholders and then patched is the record.
pub proof fn lemma_record_patched(
    version_id: u16,
    hnsw_level: u8,
    prop: (FileOffset, u32),
    parent: u32,
    child: u32,
    neighbors: u32,
    versions: u32,
)
    ensures
        node_record(version_id, hnsw_level, prop, parent, child, neighbors, versions).len() == 27,
        write_at(
            write_at(
                write_at(
                    write_at(
                        node_record(
                            version_id,
                            hnsw_level,
                            prop,
                            u32::MAX,
                            u32::MAX,
                            u32::MAX,
                            u32::MAX,
                        ),
                        11,
                        le32(parent),
                    ),
                    15,
                    le32(child),
                ),
                19,
                le32(neighbors),
            ),
            23,
            le32(versions),
        ) == node_record(version_id, hnsw_level, prop, parent, child, neighbors, versions),
{
    reveal(write_at);
    lemma_le_round_trip();
    let blank = node_record(version_id, hnsw_level, prop, u32::MAX, u32::MAX, u32::MAX, u32::MAX);
    let x2 = write_at(blank, 11, le32(parent));
    let x3 = write_at(x2, 15, le32(child));
    let x4 = write_at(x3, 19, le32(neighbors));
    let x5 = write_at(x4, 23, le32(versions));
    assert(x2 =~= node_record(version_id, hnsw_level, prop, parent, u32::MAX, u32::MAX, u32::MAX));
    assert(x3 =~= node_record(version_id, hnsw_level, prop, parent, child, u32::MAX, u32::MAX));
    assert(x4 =~= node_record(version_id, hnsw_level, prop, parent, child, neighbors, u32::MAX));
    assert(x5 =~= node_record(version_id, hnsw_level, prop, parent, child, neighbors, versions));
}

/// An entry written with a placeholder for its item and then patched.
pub proof fn lemma_entry_patched(prefix: Seq<u8>, item: Seq<u8>, target: u32)
    ensures
        write_at(prefix + le32(0) + item, prefix.len() as int, le32(target)) == prefix + le32(
            target,
        ) + item,
{
    reveal(write_at);
    lemma_le_round_trip();
    assert(write_at(prefix + le32(0) + item, prefix.len() as int, le32(target)) =~= prefix + le32(
        target,
    ) + item);
}

/// The slots of a chunk patched in one by one.
pub proof fn lemma_items_step(
    w0: WriterState,
    slot_at: int,
    v: u32,
    first: Seq<u8>,
    rest_slots: Seq<u8>,
    rest: Seq<u8>,
)
    requires
        w0.wf(),
        w0.flushed <= slot_at,
        slot_at + 4 + rest_slots.len() <= w0.position(),
    ensures
        patched_at(
            patched_at(w0.written(first), slot_at, le32(v)),
            slot_at + 4,
            rest_slots,
        ).written(rest) == patched_at(w0, slot_at, le32(v) + rest_slots).written(first + rest),
{
    reveal(write_at);
    lemma_le_round_trip();
    let a = patched_at(
        patched_at(w0.written(first), slot_at, le32(v)),
        slot_at + 4,
        rest_slots,
    ).written(rest);
    let b = patched_at(w0, slot_at, le32(v) + rest_slots).written(first + rest);
    assert(a.buffer =~= b.buffer);
}

/// The head of a chunk, written blank, with the slots of its entries
/// patched in and the entries behind it.
pub proof fn lemma_chunk_step(w0: WriterState, slots: Seq<u32>, items: Seq<u8>, link: u32)
    requires
        w0.wf(),
        slots.len() <= 5,
    ensures
        patched_at(
            w0.written(chunk_head(Seq::empty(), u32::MAX)),
            w0.position() as int,
            slots_bytes(slots),
        ).written(items) == w0.written(chunk_head(slots, u32::MAX) + items),
        write_at(chunk_head(slots, u32::MAX) + items, 20, le32(link)) == chunk_head(slots, link)
            + items,
{
    lemma_le_round_trip();
    lemma_chunk_head(slots, link);
    lemma_slots_bytes_len(slots);
    let ph = chunk_head(Seq::empty(), u32::MAX);
    lemma_patched(w0, ph, 0, slots_bytes(slots));
    lemma_written_twice(w0, chunk_head(slots, u32::MAX), items);
    lemma_patch_in_front(chunk_head(slots, u32::MAX), items, 20, le32(link));
}

/// The encodings of slots have four bytes each.
pub proof fn lemma_slots_bytes_len(slots: Seq<u32>)
    ensures
        slots_bytes(slots).len() == 4 * slots.len(),
    decreases slots.len(),
{
    lemma_le_round_trip();
    if slots.len() > 0 {
        lemma_slots_bytes_len(slots.drop_last());
    }
}

/// The encoding of a slot in front of others.
pub proof fn lemma_slots_bytes_first(v: u32, rest: Seq<u32>)
    ensures
        slots_bytes(seq![v] + rest) == le32(v) + slots_bytes(rest),
    decreases rest.len(),
{
    let all = seq![v] + rest;
    if rest.len() == 0 {
        assert(all.drop_last() =~= Seq::<u32>::empty());
        assert(slots_bytes(all.drop_last()) =~= Seq::<u8>::empty());
        assert(slots_bytes(all) =~= le32(v) + slots_bytes(rest));
    } else {
        lemma_slots_bytes_first(v, rest.drop_last());
        assert(all.drop_last() =~= seq![v] + rest.drop_last());
        assert(slots_bytes(all) =~= le32(v) + slots_bytes(rest));
    }
}

/// A head of placeholders with the slots and the link patched in is the
/// head of the chunk.
pub proof fn lemma_chunk_head(slots: Seq<u32>, next: u32)
    requires
        slots.len() <= 5,
    ensures
        chunk_head(slots, next).len() == 24,
        chunk_head(Seq::empty(), u32::MAX).len() == 24,
        write_at(
            write_at(chunk_head(Seq::empty(), u32::MAX), 0, slots_bytes(slots)),
            20,
            le32(next),
        ) == chunk_head(slots, next),
        write_at(chunk_head(Seq::empty(), u32::MAX), 0, slots_bytes(slots)) == chunk_head(
            slots,
            u32::MAX,
        ),
{
    reveal(write_at);
    lemma_le_round_trip();
    lemma_slots_bytes_len(slots);
    lemma_slots_bytes_len(padded(slots));
    lemma_slots_bytes_len(padded(Seq::empty()));
    let blank = chunk_head(Seq::empty(), u32::MAX);
    let with_slots = write_at(blank, 0, slots_bytes(slots));
    assert forall|i: int| 0 <= i < 20 implies with_slots[i] == slots_bytes(padded(slots))[i] by {
        if i < 4 * slots.len() {
            lemma_slots_bytes_prefix(slots, padded(slots), i);
        } else {
            lemma_slots_bytes_at(padded(slots), i);
            lemma_slots_bytes_at(padded(Seq::empty()), i);
        }
    }
    assert(with_slots =~= chunk_head(slots, u32::MAX));
    assert(write_at(with_slots, 20, le32(next)) =~= chunk_head(slots, next));
}

/// Byte `i` of the encodings of slots is a byte of the encoding of slot `i / 4`.
pub proof fn lemma_slots_bytes_at(slots: Seq<u32>, i: int)
    requires
        0 <= i < 4 * slots.len(),
    ensures
        slots_bytes(slots)[i] == le32(slots[i / 4])[i % 4],
    decreases slots.len(),
{
    lemma_le_round_trip();
    lemma_slots_bytes_len(slots.drop_last());
    if i < 4 * (slots.len() - 1) {
        lemma_slots_bytes_at(slots.drop_last(), i);
    }
}

/// The encodings of slots start with the encodings of any prefix of them.
pub proof fn lemma_slots_bytes_prefix(s: Seq<u32>, t: Seq<u32>, i: int)
    requires
        s.len() <= t.len(),
        0 <= i < 4 * s.len(),
        forall|j: int| 0 <= j < s.len() ==> s[j] == t[j],
    ensures
        slots_bytes(s)[i] == slots_bytes(t)[i],
{
    lemma_slots_bytes_at(s, i);
    lemma_slots_bytes_at(t, i);
}

/// Writes `value` at the cursor.
pub fn put_u32(writer: &mut CustomBufferedWriter, value: u32) -> (r: Result<(), StoreError>)
    requires
        old(writer)@.wf(),
    ensures
        final(writer)@.wf(),
        r is Ok <==> old(writer)@.position() + 4 <= MAX_FILE_LEN,
        r is Ok ==> final(writer)@ == old(writer)@.written(le32(value)),
        r matches Err(e) ==> e == StoreError::FileTooLarge && final(writer)@ == old(writer)@,
{
    proof {
        lemma_le_round_trip();
    }
    let encoded = u32_to_le(value);
    writer.write(encoded.as_slice())
}

/// Puts `value` at the absolute position `at`, inside what was written, and
/// leaves the cursor where it was.
pub fn patch_u32(writer: &mut CustomBufferedWriter, at: u64, value: u32)
    requires
        old(writer)@.wf(),
        old(writer)@.flushed <= at,
        at + 4 <= old(writer)@.flushed + old(writer)@.buffer.len(),
    ensures
        final(writer)@ == patched_at(old(writer)@, at as int, le32(value)),
        final(writer)@.wf(),
        final(writer)@.buffer.len() == old(writer)@.buffer.len(),
{
    proof {
        lemma_le_round_trip();
    }
    let back: u64 = writer.stream_position();
    let moved = writer.seek(at);
    assert(moved is Ok);
    let wrote = put_u32(writer, value);
    assert(wrote is Ok);
    proof {
        lemma_write_at_reads(old(writer)@.buffer, at - old(writer)@.flushed, le32(value));
    }
    assert(writer@.buffer.len() == old(writer)@.buffer.len());
    let restored = writer.seek(back);
    assert(restored is Ok);
}

/// Writes a lazy item at the cursor.
pub fn write_lazy_item(
    nodes: &Vec<MergedNode>,
    offsets: &mut Vec<Option<FileOffset>>,
    item: &LazyItem,
    writer: &mut CustomBufferedWriter,
) -> (r: Result<u32, StoreError>)
    requires
        old(writer)@.wf(),
        nodes@.len() == old(offsets)@.len(),
    ensures
        final(writer)@.wf(),
        final(writer)@.flushed == old(writer)@.flushed,
        final(offsets)@.len() == old(offsets)@.len(),
        unassigned(final(offsets)@) <= unassigned(old(offsets)@),
        ({
            let l = lazy_layout(
                node_views(nodes@),
                old(offsets)@,
                *item,
                old(writer)@.position() as int,
            );
            &&& stored(r is Ok, l.bytes, l.offsets, old(writer)@, final(writer)@, final(offsets)@)
            &&& r matches Ok(v) ==> v == l.value
            &&& r matches Err(e) ==> e == StoreError::FileTooLarge
        }),
    decreases unassigned(old(offsets)@), 0int, 0int,
{
    proof {
        lemma_lazy_layout(
            node_views(nodes@),
            offsets@,
            *item,
            writer@.position() as int,
        );
        lemma_written_nothing(writer@);
    }
    match item {
        LazyItem::Valid { data, offset, .. } => {
            if let Some(o) = offset {
                return Ok(*o);
            }
            if let Some(handle) = data {
                if *handle < nodes.len() {
                    if let Some(o) = offsets[*handle] {
                        return Ok(o);
                    }
                    let pos: u64 = writer.stream_position();
                    proof {
                        lemma_unassigned_update(offsets@, *handle as int, pos as u32);
                    }
                    offsets[*handle] = Some(pos as u32);
                    return write_node(nodes, offsets, &nodes[*handle], writer);
                }
            }
            Ok(u32::MAX)
        },
        LazyItem::Invalid => Ok(u32::MAX),
    }
}

/// Writes the record of `node` at the cursor, with placeholders where the
/// four offsets go.
fn write_blank_record(node: &MergedNode, writer: &mut CustomBufferedWriter) -> (r: Result<
    (),
    StoreError,
>)
    requires
        old(writer)@.wf(),
    ensures
        final(writer)@.wf(),
        final(writer)@.flushed == old(writer)@.flushed,
        r is Ok <==> old(writer)@.position() + NODE_RECORD_SIZE <= MAX_FILE_LEN,
        r is Ok ==> final(writer)@ == old(writer)@.written(
            node_record(
                node@.version_id,
                node@.hnsw_level,
                prop_fields(node@.prop),
                u32::MAX,
                u32::MAX,
                u32::MAX,
                u32::MAX,
            ),
        ),
        r matches Err(e) ==> e == StoreError::FileTooLarge,
{
    proof {
        lemma_le_round_trip();
    }
    let prop: (u32, u32) = match node.get_prop_location() {
        Some(location) => location,
        None => (u32::MAX, 0),
    };
    let mut record: Vec<u8> = u16_to_le(node.version_id);
    record.push(node.hnsw_level);
    let field = u32_to_le(prop.0);
    append_bytes(&mut record, field.as_slice());
    let field = u32_to_le(prop.1);
    append_bytes(&mut record, field.as_slice());
    let blank = u32_to_le(u32::MAX);
    append_bytes(&mut record, blank.as_slice());
    append_bytes(&mut record, blank.as_slice());
    append_bytes(&mut record, blank.as_slice());
    append_bytes(&mut record, blank.as_slice());
    assert(record@ =~= node_record(
        node@.version_id,
        node@.hnsw_level,
        prop,
        u32::MAX,
        u32::MAX,
        u32::MAX,
        u32::MAX,
    ));
    writer.write(record.as_slice())
}

/// Puts the four offsets into the record that starts at `start`.
fn patch_record(
    writer: &mut CustomBufferedWriter,
    start: u64,
    parent: u32,
    child: u32,
    neighbors: u32,
    versions: u32,
    Ghost(w0): Ghost<WriterState>,
    Ghost(node): Ghost<MergedNodeView>,
    Ghost(behind): Ghost<Seq<u8>>,
)
    requires
        w0.wf(),
        start == w0.position(),
        old(writer)@ == w0.written(
            node_record(
                node.version_id,
                node.hnsw_level,
                prop_fields(node.prop),
                u32::MAX,
                u32::MAX,
                u32::MAX,
                u32::MAX,
            ) + behind,
        ),
        old(writer)@.wf(),
    ensures
        final(writer)@ == w0.written(
            node_record(
                node.version_id,
                node.hnsw_level,
                prop_fields(node.prop),
                parent,
                child,
                neighbors,
                versions,
            ) + behind,
        ),
        final(writer)@.wf(),
{
    let ghost prop = prop_fields(node.prop);
    let ghost x0 = node_record(
        node.version_id,
        node.hnsw_level,
        prop,
        u32::MAX,
        u32::MAX,
        u32::MAX,
        u32::MAX,
    );
    let ghost r2 = write_at(x0, 11, le32(parent));
    let ghost r3 = write_at(r2, 15, le32(child));
    let ghost r4 = write_at(r3, 19, le32(neighbors));
    let ghost r5 = write_at(r4, 23, le32(versions));
    proof {
        lemma_le_round_trip();
        lemma_record_patched(
            node.version_id,
            node.hnsw_level,
            prop,
            parent,
            child,
            neighbors,
            versions,
        );
        lemma_record_patched(
            node.version_id,
            node.hnsw_level,
            prop,
            u32::MAX,
            u32::MAX,
            u32::MAX,
            u32::MAX,
        );
        lemma_write_at_reads(x0, 11, le32(parent));
        lemma_write_at_reads(r2, 15, le32(child));
        lemma_write_at_reads(r3, 19, le32(neighbors));
        lemma_write_at_reads(r4, 23, le32(versions));
        lemma_patch_in_front(x0, behind, 11, le32(parent));
        lemma_patch_in_front(r2, behind, 15, le32(child));
        lemma_patch_in_front(r3, behind, 19, le32(neighbors));
        lemma_patch_in_front(r4, behind, 23, le32(versions));
        lemma_write_at_reads(w0.buffer, w0.cursor as int, x0 + behind);
    }
    patch_u32(writer, start + 11, parent);
    proof {
        lemma_patched(w0, x0 + behind, 11, le32(parent));
    }
    patch_u32(writer, start + 15, child);
    proof {
        lemma_patched(w0, r2 + behind, 15, le32(child));
    }
    patch_u32(writer, start + 19, neighbors);
    proof {
        lemma_patched(w0, r3 + behind, 19, le32(neighbors));
    }
    patch_u32(writer, start + 23, versions);
    proof {
        lemma_patched(w0, r4 + behind, 23, le32(versions));
    }
}

/// Writes a node at the cursor: its record with placeholders, what it
/// refers to, and then the offsets into the record.
pub fn write_node(
    nodes: &Vec<MergedNode>,
    offsets: &mut Vec<Option<FileOffset>>,
    node: &MergedNode,
    writer: &mut CustomBufferedWriter,
) -> (r: Result<u32, StoreError>)
    requires
        old(writer)@.wf(),
        nodes@.len() == old(offsets)@.len(),
    ensures
        final(writer)@.wf(),
        final(writer)@.flushed == old(writer)@.flushed,
        final(offsets)@.len() == old(offsets)@.len(),
        unassigned(final(offsets)@) <= unassigned(old(offsets)@),
        ({
            let l = node_layout(
                node_views(nodes@),
                old(offsets)@,
                node@,
                old(writer)@.position() as int,
            );
            &&& stored(r is Ok, l.bytes, l.offsets, old(writer)@, final(writer)@, final(offsets)@)
            &&& r matches Ok(v) ==> v == l.value && v < u32::MAX
            &&& r matches Err(e) ==> e == StoreError::FileTooLarge
        }),
    decreases unassigned(old(offsets)@), 4int, 0int,
{
    let ghost w0 = writer@;
    let ghost o0 = offsets@;
    let ghost views = node_views(nodes@);
    let ghost at = w0.position() as int;
    let ghost total = node_layout(views, o0, node@, at);
    let ghost x0 = node_record(
        node@.version_id,
        node@.hnsw_level,
        prop_fields(node@.prop),
        u32::MAX,
        u32::MAX,
        u32::MAX,
        u32::MAX,
    );
    let ghost pl = lazy_layout(views, o0, node@.parent, at + 27);
    let ghost cl = lazy_layout(
        views,
        carried(o0, pl.offsets),
        node@.child,
        at + 27 + pl.bytes.len(),
    );
    let ghost nl = entries_layout(
        views,
        carried(o0, cl.offsets),
        eager_entries(node@.neighbors),
        false,
        at + 27 + pl.bytes.len() + cl.bytes.len(),
    );
    let ghost vl = entries_layout(
        views,
        carried(o0, nl.offsets),
        keyed_entries(node@.versions),
        false,
        at + 27 + pl.bytes.len() + cl.bytes.len() + nl.bytes.len(),
    );
    proof {
        lemma_node_layout(views, o0, node@, at);
        lemma_record_patched(
            node@.version_id,
            node@.hnsw_level,
            prop_fields(node@.prop),
            u32::MAX,
            u32::MAX,
            u32::MAX,
            u32::MAX,
        );
        lemma_record_patched(
            node@.version_id,
            node@.hnsw_level,
            prop_fields(node@.prop),
            pl.value,
            cl.value,
            nl.value,
            vl.value,
        );
        assert(total.bytes.len() == 27 + pl.bytes.len() + cl.bytes.len() + nl.bytes.len()
            + vl.bytes.len());
    }
    let start: u64 = writer.stream_position();
    match write_blank_record(node, writer) {
        Err(e) => {
            return Err(e);
        },
        Ok(()) => {},
    }
    let parent: u32 = match write_lazy_item(nodes, offsets, &node.parent, writer) {
        Err(e) => {
            return Err(e);
        },
        Ok(v) => v,
    };
    proof {
        lemma_written_twice(w0, x0, pl.bytes);
    }
    let child: u32 = match write_lazy_item(nodes, offsets, &node.child, writer) {
        Err(e) => {
            return Err(e);
        },
        Ok(v) => v,
    };
    proof {
        lemma_written_twice(w0, x0 + pl.bytes, cl.bytes);
    }
    let neighbor_entries = set_chunk_entries(
        &node.neighbors,
    );
    let neighbors: u32 = match write_entries(nodes, offsets, &neighbor_entries, false, writer) {
        Err(e) => {
            return Err(e);
        },
        Ok(v) => v,
    };
    proof {
        lemma_written_twice(w0, x0 + pl.bytes + cl.bytes, nl.bytes);
    }
    let version_entries = keyed_chunk_entries(node);
    let versions: u32 = match write_entries(nodes, offsets, &version_entries, false, writer) {
        Err(e) => {
            return Err(e);
        },
        Ok(v) => v,
    };
    let ghost behind = pl.bytes + cl.bytes + nl.bytes + vl.bytes;
    proof {
        lemma_written_twice(w0, x0 + pl.bytes + cl.bytes + nl.bytes, vl.bytes);
        assert(x0 + pl.bytes + cl.bytes + nl.bytes + vl.bytes =~= x0 + behind);
    }
    patch_record(
        writer,
        start,
        parent,
        child,
        neighbors,
        versions,
        Ghost(w0),
        Ghost(node@),
        Ghost(behind),
    );
    proof {
        assert(node_record(
            node@.version_id,
            node@.hnsw_level,
            prop_fields(node@.prop),
            parent,
            child,
            neighbors,
            versions,
        ) + behind =~= total.bytes);
    }
    Ok(start as u32)
}

/// The items of `set` as entries without a prefix.
pub fn plain_chunk_entries(set: &LazyItemSet) -> (entries: Vec<ChunkEntry>)
    ensures
        entry_views(entries@) == plain_entries(set@),
{
    let n: usize = set.items.entries.len();
    let mut entries: Vec<ChunkEntry> = Vec::new();
    let mut i: usize = 0;
    while i < n
        invariant
            i <= n,
            n == set@.len(),
            entry_views(entries@) == plain_entries(
                set@.subrange(0, i as int),
            ),
        decreases n - i,
    {
        let entry = ChunkEntry { prefix: Vec::new(), item: set.items.entries[i].1 };
        assert(entry@ == plain_entries(set@)[i as int]);
        let ghost before = entry_views(entries@);
        entries.push(entry);
        i = i + 1;
        assert(entry_views(entries@) =~= before.push(entry@));
        assert(plain_entries(set@.subrange(0, i as int))
            =~= before.push(entry@));
    }
    assert(set@.subrange(0, n as int) =~= set@);
    entries
}

/// The versions of `node` as entries: each key in front of its item.
pub fn keyed_chunk_entries(node: &MergedNode) -> (entries: Vec<ChunkEntry>)
    ensures
        entry_views(entries@) == keyed_entries(node@.versions),
{
    map_chunk_entries(&node.versions)
}

/// Writes a collection at the cursor.
pub fn write_entries(
    nodes: &Vec<MergedNode>,
    offsets: &mut Vec<Option<FileOffset>>,
    entries: &Vec<ChunkEntry>,
    direct: bool,
    writer: &mut CustomBufferedWriter,
) -> (r: Result<u32, StoreError>)
    requires
        old(writer)@.wf(),
        nodes@.len() == old(offsets)@.len(),
    ensures
        final(writer)@.wf(),
        final(writer)@.flushed == old(writer)@.flushed,
        final(offsets)@.len() == old(offsets)@.len(),
        unassigned(final(offsets)@) <= unassigned(old(offsets)@),
        ({
            let l = entries_layout(
                node_views(nodes@),
                old(offsets)@,
                entry_views(entries@),
                direct,
                old(writer)@.position() as int,
            );
            &&& stored(r is Ok, l.bytes, l.offsets, old(writer)@, final(writer)@, final(offsets)@)
            &&& r matches Ok(v) ==> v == l.value
            &&& r matches Err(e) ==> e == StoreError::FileTooLarge
        }),
    decreases unassigned(old(offsets)@), 3int, 0int,
{
    proof {
        lemma_entries_layout(
            node_views(nodes@),
            offsets@,
            entry_views(entries@),
            direct,
            writer@.position() as int,
        );
    }
    if entries.len() == 0 {
        proof {
            lemma_written_nothing(writer@);
        }
        return Ok(u32::MAX);
    }
    let start: u64 = writer.stream_position();
    proof {
        lemma_chunks_layout(
            node_views(nodes@),
            offsets@,
            entry_views(entries@),
            direct,
            writer@.position() as int,
        );
    }
    assert(entry_views(entries@).subrange(0, entries@.len() as int) =~= entry_views(entries@));
    match write_chunks(nodes, offsets, entries, 0, direct, writer) {
        Err(e) => Err(e),
        Ok(()) => Ok(start as u32),
    }
}

/// Writes the chain of chunks for the entries from `from` on.
pub fn write_chunks(
    nodes: &Vec<MergedNode>,
    offsets: &mut Vec<Option<FileOffset>>,
    entries: &Vec<ChunkEntry>,
    from: usize,
    direct: bool,
    writer: &mut CustomBufferedWriter,
) -> (r: Result<(), StoreError>)
    requires
        old(writer)@.wf(),
        nodes@.len() == old(offsets)@.len(),
        from <= entries@.len(),
    ensures
        final(writer)@.wf(),
        final(writer)@.flushed == old(writer)@.flushed,
        final(offsets)@.len() == old(offsets)@.len(),
        unassigned(final(offsets)@) <= unassigned(old(offsets)@),
        ({
            let l = chunks_layout(
                node_views(nodes@),
                old(offsets)@,
                entry_views(entries@).subrange(from as int, entries@.len() as int),
                direct,
                old(writer)@.position() as int,
            );
            &&& stored(r is Ok, l.bytes, l.offsets, old(writer)@, final(writer)@, final(offsets)@)
            &&& r matches Err(e) ==> e == StoreError::FileTooLarge
        }),
    decreases unassigned(old(offsets)@), 2int, entries@.len() - from,
{
    let ghost w0 = writer@;
    let ghost o0 = offsets@;
    let ghost views = node_views(nodes@);
    let ghost at = w0.position() as int;
    let ghost all = entry_views(entries@).subrange(from as int, entries@.len() as int);
    let ghost total = chunks_layout(views, o0, all, direct, at);
    proof {
        lemma_chunks_layout(views, o0, all, direct, at);
    }
    let n: usize = entries.len();
    if from == n {
        proof {
            lemma_written_nothing(writer@);
        }
        return Ok(());
    }
    let to: usize = if n - from < CHUNK_SIZE {
        n
    } else {
        from + CHUNK_SIZE
    };
    let ghost k = to - from;
    let ghost body = items_layout(views, o0, all.subrange(0, k), direct, at + 24);
    let ghost next_at = at + 24 + body.bytes.len();
    let ghost rest = all.subrange(k, all.len() as int);
    let ghost tail = chunks_layout(views, carried(o0, body.offsets), rest, direct, next_at);
    let ghost link = if rest.len() == 0 {
        u32::MAX
    } else {
        next_at as u32
    };
    proof {
        lemma_le_round_trip();
        assert(all.subrange(0, k) =~= entry_views(entries@).subrange(from as int, to as int));
        assert(rest =~= entry_views(entries@).subrange(to as int, n as int));
        lemma_items_slots(views, o0, all.subrange(0, k), direct, at + 24);
        lemma_chunk_head(body.slots, link);
        assert(total.bytes == chunk_head(body.slots, link) + body.bytes + tail.bytes);
    }
    let chunk_at: u64 = writer.stream_position();
    let blank = u32_to_le(u32::MAX);
    let mut head: Vec<u8> = Vec::new();
    append_bytes(&mut head, blank.as_slice());
    append_bytes(&mut head, blank.as_slice());
    append_bytes(&mut head, blank.as_slice());
    append_bytes(&mut head, blank.as_slice());
    append_bytes(&mut head, blank.as_slice());
    append_bytes(&mut head, blank.as_slice());
    let ghost ph = chunk_head(Seq::empty(), u32::MAX);
    proof {
        reveal_with_fuel(slots_bytes, 6);
        assert(head@ =~= ph);
    }
    match writer.write(head.as_slice()) {
        Err(e) => {
            return Err(e);
        },
        Ok(()) => {},
    }
    match write_items(nodes, offsets, entries, from, to, direct, chunk_at, 0, writer) {
        Err(e) => {
            return Err(e);
        },
        Ok(()) => {},
    }
    let ghost x1 = chunk_head(body.slots, u32::MAX) + body.bytes;
    proof {
        lemma_slots_bytes_len(body.slots);
        lemma_chunk_step(w0, body.slots, body.bytes, link);
        assert(writer@ == w0.written(x1));
    }
    let next: u64 = writer.stream_position();
    if to < n {
        patch_u32(writer, chunk_at + CHUNK_LINK_AT, next as u32);
        proof {
            lemma_patched(w0, x1, 20, le32(next as u32));
        }
    }
    let ghost x2 = chunk_head(body.slots, link) + body.bytes;
    proof {
        assert(writer@ == w0.written(x2));
    }
    match write_chunks(nodes, offsets, entries, to, direct, writer) {
        Err(e) => Err(e),
        Ok(()) => {
            proof {
                lemma_written_twice(w0, x2, tail.bytes);
            }
            Ok(())
        },
    }
}

/// A chain of chunks for entries starts with the head of a chunk.
pub proof fn lemma_chunks_start(
    nodes: Seq<MergedNodeView>,
    offsets: Seq<Option<FileOffset>>,
    entries: Seq<EntryView>,
    direct: bool,
    pos: int,
)
    requires
        entries.len() > 0,
    ensures
        chunks_layout(nodes, offsets, entries, direct, pos).bytes.len() >= 24,
        chunks_layout(nodes, offsets, entries, direct, pos).value == pos as u32,
        entries_layout(nodes, offsets, entries, direct, pos) == chunks_layout(
            nodes,
            offsets,
            entries,
            direct,
            pos,
        ),
{
    lemma_entries_layout(nodes, offsets, entries, direct, pos);
    lemma_chunks_layout(nodes, offsets, entries, direct, pos);
    let k = if entries.len() < 5 {
        entries.len() as int
    } else {
        5
    };
    let body = items_layout(nodes, offsets, entries.subrange(0, k), direct, pos + 24);
    lemma_items_slots(nodes, offsets, entries.subrange(0, k), direct, pos + 24);
    let next = pos + 24 + body.bytes.len();
    let rest = entries.subrange(k, entries.len() as int);
    lemma_chunk_head(
        body.slots,
        if rest.len() == 0 {
            u32::MAX
        } else {
            next as u32
        },
    );
}

/// A chunk of `items` has a slot for each of them.
pub proof fn lemma_items_slots(
    nodes: Seq<MergedNodeView>,
    offsets: Seq<Option<FileOffset>>,
    items: Seq<EntryView>,
    direct: bool,
    pos: int,
)
    ensures
        items_layout(nodes, offsets, items, direct, pos).slots.len() == items.len(),
    decreases items.len(),
{
    lemma_items_layout(nodes, offsets, items, direct, pos);
    if items.len() > 0 {
        let first = entry_layout(nodes, offsets, items[0], direct, pos);
        lemma_items_slots(
            nodes,
            carried(offsets, first.offsets),
            items.drop_first(),
            direct,
            pos + first.bytes.len(),
        );
    }
}

/// Writes one entry at the cursor and returns its slot.
pub fn write_entry(
    nodes: &Vec<MergedNode>,
    offsets: &mut Vec<Option<FileOffset>>,
    entry: &ChunkEntry,
    direct: bool,
    writer: &mut CustomBufferedWriter,
) -> (r: Result<u32, StoreError>)
    requires
        old(writer)@.wf(),
        nodes@.len() == old(offsets)@.len(),
    ensures
        final(writer)@.wf(),
        final(writer)@.flushed == old(writer)@.flushed,
        final(offsets)@.len() == old(offsets)@.len(),
        unassigned(final(offsets)@) <= unassigned(old(offsets)@),
        ({
            let l = entry_layout(
                node_views(nodes@),
                old(offsets)@,
                entry@,
                direct,
                old(writer)@.position() as int,
            );
            &&& stored(r is Ok, l.bytes, l.offsets, old(writer)@, final(writer)@, final(offsets)@)
            &&& r matches Ok(v) ==> v == l.value
            &&& r matches Err(e) ==> e == StoreError::FileTooLarge
        }),
    decreases unassigned(old(offsets)@), 0int, 1int,
{
    let ghost w0 = writer@;
    let ghost o0 = offsets@;
    let ghost views = node_views(nodes@);
    let ghost at = w0.position() as int;
    proof {
        lemma_le_round_trip();
        lemma_entry_layout(views, o0, entry@, direct, at);
    }
    if direct {
        return write_lazy_item(nodes, offsets, &entry.item, writer);
    }
    let ghost il = lazy_layout(views, o0, entry.item, at + entry.prefix@.len() + 4);
    let entry_at: u64 = writer.stream_position();
    match writer.write(entry.prefix.as_slice()) {
        Err(e) => {
            return Err(e);
        },
        Ok(()) => {},
    }
    let target_at: u64 = writer.stream_position();
    match put_u32(writer, 0) {
        Err(e) => {
            return Err(e);
        },
        Ok(()) => {},
    }
    proof {
        lemma_written_twice(w0, entry.prefix@, le32(0));
    }
    let target: u32 = match write_lazy_item(nodes, offsets, &entry.item, writer) {
        Err(e) => {
            return Err(e);
        },
        Ok(v) => v,
    };
    let ghost x1 = entry.prefix@ + le32(0) + il.bytes;
    proof {
        lemma_written_twice(w0, entry.prefix@ + le32(0), il.bytes);
        lemma_patched(w0, x1, entry.prefix@.len() as int, le32(target));
        lemma_entry_patched(entry.prefix@, il.bytes, target);
    }
    patch_u32(writer, target_at, target);
    Ok(entry_at as u32)
}

/// Writes the entries `from..to` of one chunk at the cursor and puts the
/// slot of each into the head of the chunk at `chunk_at`, from slot `slot` on.
pub fn write_items(
    nodes: &Vec<MergedNode>,
    offsets: &mut Vec<Option<FileOffset>>,
    entries: &Vec<ChunkEntry>,
    from: usize,
    to: usize,
    direct: bool,
    chunk_at: u64,
    slot: usize,
    writer: &mut CustomBufferedWriter,
) -> (r: Result<(), StoreError>)
    requires
        old(writer)@.wf(),
        nodes@.len() == old(offsets)@.len(),
        from <= to <= entries@.len(),
        slot + (to - from) <= CHUNK_SIZE,
        old(writer)@.flushed <= chunk_at,
        chunk_at + CHUNK_HEAD_SIZE <= old(writer)@.position(),
    ensures
        final(writer)@.wf(),
        final(writer)@.flushed == old(writer)@.flushed,
        final(offsets)@.len() == old(offsets)@.len(),
        unassigned(final(offsets)@) <= unassigned(old(offsets)@),
        ({
            let l = items_layout(
                node_views(nodes@),
                old(offsets)@,
                entry_views(entries@).subrange(from as int, to as int),
                direct,
                old(writer)@.position() as int,
            );
            &&& stored(
                r is Ok,
                l.bytes,
                l.offsets,
                patched_at(old(writer)@, chunk_at + 4 * slot, slots_bytes(l.slots)),
                final(writer)@,
                final(offsets)@,
            )
            &&& r matches Err(e) ==> e == StoreError::FileTooLarge
        }),
    decreases unassigned(old(offsets)@), 1int, to - from,
{
    let ghost w0 = writer@;
    let ghost o0 = offsets@;
    let ghost views = node_views(nodes@);
    let ghost at = w0.position() as int;
    let ghost items = entry_views(entries@).subrange(from as int, to as int);
    let ghost total = items_layout(views, o0, items, direct, at);
    let ghost slot_at = chunk_at + 4 * slot;
    proof {
        lemma_items_layout(views, o0, items, direct, at);
    }
    if from == to {
        proof {
            reveal(write_at);
            assert(slots_bytes(total.slots) =~= Seq::<u8>::empty());
            assert(write_at(w0.buffer, slot_at - w0.flushed, Seq::empty()) =~= w0.buffer);
            lemma_written_nothing(w0);
        }
        return Ok(());
    }
    let entry = &entries[from];
    let ghost first = entry_layout(views, o0, items[0], direct, at);
    let ghost rest = items_layout(
        views,
        carried(o0, first.offsets),
        items.drop_first(),
        direct,
        at + first.bytes.len(),
    );
    proof {
        lemma_le_round_trip();
        assert(items[0] == entry@);
        assert(items.drop_first() =~= entry_views(entries@).subrange(from + 1, to as int));
        assert(total.bytes == first.bytes + rest.bytes);
        lemma_slots_bytes_first(first.value, rest.slots);
        lemma_slots_bytes_len(rest.slots);
        lemma_items_slots(
            views,
            carried(o0, first.offsets),
            items.drop_first(),
            direct,
            at + first.bytes.len(),
        );
    }
    let slot_value: u32 = match write_entry(nodes, offsets, entry, direct, writer) {
        Err(e) => {
            return Err(e);
        },
        Ok(v) => v,
    };
    assert(writer@ == w0.written(first.bytes));
    assert(slot_value == first.value);
    patch_u32(writer, chunk_at + 4 * (slot as u64), slot_value);
    let ghost w1 = writer@;
    match write_items(nodes, offsets, entries, from + 1, to, direct, chunk_at, slot + 1, writer) {
        Err(e) => Err(e),
        Ok(()) => {
            proof {
                lemma_items_step(
                    w0,
                    slot_at,
                    first.value,
                    first.bytes,
                    slots_bytes(rest.slots),
                    rest.bytes,
                );
            }
            Ok(())
        },
    }
}

} // verus!
