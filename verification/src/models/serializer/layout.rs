//! What a graph looks like on disk.
//!
//! A node is a fixed record followed by what it refers to and has not been
//! written yet: its parent, its child, its neighbours and its versions. A
//! collection is a chain of chunks of `CHUNK_SIZE` slots. All integers are
//! little-endian and `u32::MAX` stands for "absent".
//!
//! The functions here give the bytes as a function of the graph. They thread
//! the table of offsets through the walk: a node gets its offset when the
//! walk first meets it, and every later reference to it is that offset.

use crate::models::endian::{le16, le32};
use crate::models::identity_collections::KeyView;
use crate::models::lazy_load::{EagerLazyItem, LazyItem, LazyItemId, CHUNK_SIZE};
use crate::models::node_arena::lazy_offset;
use crate::models::types::{prop_location, FileOffset, MergedNodeView, PropState};
use vstd::prelude::*;
use vstd::utf8::encode_utf8;

verus! {

/// The size of a node record.
pub const NODE_RECORD_SIZE: u64 = 27;

/// The size of the head of a chunk: its slots and the link to the next chunk.
pub const CHUNK_HEAD_SIZE: u64 = 24;

/// Where in the head of a chunk the link to the next chunk lies.
pub const CHUNK_LINK_AT: u64 = 20;

/// The bit that marks a string key.
pub const MSB: u32 = 2147483648;

/// The bytes written for a walk, the table of offsets after it, and the
/// offset that refers to what was walked.
pub struct Layout {
    pub bytes: Seq<u8>,
    pub offsets: Seq<Option<FileOffset>>,
    pub value: u32,
}

/// The bytes written for the entries of a chunk, the table of offsets after
/// them, and for each entry its slot and the offset written for its item.
pub struct ItemsLayout {
    pub bytes: Seq<u8>,
    pub offsets: Seq<Option<FileOffset>>,
    pub slots: Seq<u32>,
    pub targets: Seq<u32>,
}

/// The bytes written for a collection, the table of offsets after it, the
/// offset that refers to the collection, and for each entry its slot and
/// the offset written for its item.
pub struct ChainLayout {
    pub bytes: Seq<u8>,
    pub offsets: Seq<Option<FileOffset>>,
    pub value: u32,
    pub slots: Seq<u32>,
    pub targets: Seq<u32>,
}

impl ChainLayout {
    /// The layout without what it says of the entries.
    pub open spec fn plain(self) -> Layout {
        Layout { bytes: self.bytes, offsets: self.offsets, value: self.value }
    }
}

/// An entry of a collection: the bytes written in front of the reference to
/// its item, and the item.
pub struct EntryView {
    pub prefix: Seq<u8>,
    pub item: LazyItem,
}

/// The number of nodes that have no offset yet.
pub open spec fn unassigned(offsets: Seq<Option<FileOffset>>) -> nat
    decreases offsets.len(),
{
    if offsets.len() == 0 {
        0
    } else {
        unassigned(offsets.drop_last()) + if offsets.last() is None {
            1nat
        } else {
            0nat
        }
    }
}

/// Giving a node its offset leaves one node less without.
pub proof fn lemma_unassigned_update(offsets: Seq<Option<FileOffset>>, h: int, v: FileOffset)
    requires
        0 <= h < offsets.len(),
        offsets[h] is None,
    ensures
        unassigned(offsets.update(h, Some(v))) + 1 == unassigned(offsets),
    decreases offsets.len(),
{
    let u = offsets.update(h, Some(v));
    if h == offsets.len() - 1 {
        assert(u.drop_last() =~= offsets.drop_last());
    } else {
        lemma_unassigned_update(offsets.drop_last(), h, v);
        assert(u.drop_last() =~= offsets.drop_last().update(h, Some(v)));
    }
}

/// The table handed from one step of a walk to the next. A step never takes
/// an offset away, so this is `after`.
pub open spec fn carried(before: Seq<Option<FileOffset>>, after: Seq<Option<FileOffset>>) -> Seq<
    Option<FileOffset>,
> {
    if unassigned(after) <= unassigned(before) {
        after
    } else {
        before
    }
}

/// The two numbers written for a property: where it lies, or the absent
/// offset and no length.
pub open spec fn prop_fields(prop: PropState) -> (FileOffset, u32) {
    match prop_location(prop) {
        Some(location) => location,
        None => (u32::MAX, 0),
    }
}

/// The record of a node.
pub open spec fn node_record(
    version_id: u16,
    hnsw_level: u8,
    prop: (FileOffset, u32),
    parent: u32,
    child: u32,
    neighbors: u32,
    versions: u32,
) -> Seq<u8> {
    le16(version_id) + seq![hnsw_level] + le32(prop.0) + le32(prop.1) + le32(parent) + le32(child)
        + le32(neighbors) + le32(versions)
}

/// The encodings of `slots` one after the other.
pub open spec fn slots_bytes(slots: Seq<u32>) -> Seq<u8>
    decreases slots.len(),
{
    if slots.len() == 0 {
        Seq::empty()
    } else {
        slots_bytes(slots.drop_last()) + le32(slots.last())
    }
}

/// `slots` filled up with absent slots to the size of a chunk.
pub open spec fn padded(slots: Seq<u32>) -> Seq<u32> {
    Seq::new(CHUNK_SIZE as nat, |i: int| if i < slots.len() { slots[i] } else { u32::MAX })
}

/// The head of a chunk: its five slots and the offset of the next chunk.
pub open spec fn chunk_head(slots: Seq<u32>, next: u32) -> Seq<u8> {
    slots_bytes(padded(slots)) + le32(next)
}

/// The first word of a string key of `len` bytes: the marker bit and the
/// low 31 bits of the length.
pub open spec fn string_key_head(len: nat) -> u32 {
    (MSB + len % (MSB as nat)) as u32
}

/// The encoding of a key: an integer as it is, a string as its marked
/// length and its UTF-8 bytes.
pub open spec fn key_bytes(key: KeyView) -> Seq<u8> {
    match key {
        KeyView::Int(i) => le32(i),
        KeyView::String(s) => le32(string_key_head(encode_utf8(s).len())) + encode_utf8(s),
    }
}

/// The entries of a set of neighbours: each similarity in front of its item.
pub open spec fn eager_entries(set: Seq<(LazyItemId, EagerLazyItem)>) -> Seq<EntryView> {
    set.map_values(|e: (LazyItemId, EagerLazyItem)| EntryView { prefix: le32(e.1.0), item: e.1.1 })
}

/// The entries of a map: each key in front of its item.
pub open spec fn keyed_entries(map: Seq<(KeyView, LazyItem)>) -> Seq<EntryView> {
    map.map_values(|e: (KeyView, LazyItem)| EntryView { prefix: key_bytes(e.0), item: e.1 })
}

/// The entries of a set of lazy items: the items alone.
pub open spec fn plain_entries(set: Seq<(LazyItemId, LazyItem)>) -> Seq<EntryView> {
    set.map_values(|e: (LazyItemId, LazyItem)| EntryView { prefix: Seq::empty(), item: e.1 })
}

/// A lazy item written at `pos`. An item whose node has an offset is that
/// offset and writes nothing. An item whose node is in memory only gives
/// the node the offset `pos` and writes it there. An item without a node is
/// the absent offset.
#[verifier::opaque]
pub open spec fn lazy_layout(
    nodes: Seq<MergedNodeView>,
    offsets: Seq<Option<FileOffset>>,
    item: LazyItem,
    pos: int,
) -> Layout
    decreases unassigned(offsets), 0int, 0int,
{
    match lazy_offset(offsets, item) {
        Some(o) => Layout { bytes: Seq::empty(), offsets, value: o },
        None => {
            if item.data() is Some && item.data().unwrap() < nodes.len() && item.data().unwrap()
                < offsets.len() {
                let h = item.data().unwrap() as int;
                proof {
                    lemma_unassigned_update(offsets, h, pos as u32);
                }
                node_layout(nodes, offsets.update(h, Some(pos as u32)), nodes[h], pos)
            } else {
                Layout { bytes: Seq::empty(), offsets, value: u32::MAX }
            }
        },
    }
}

/// A node written at `pos`: its record, then its parent, its child, its
/// neighbours and its versions, as far as they are written here.
#[verifier::opaque]
pub open spec fn node_layout(
    nodes: Seq<MergedNodeView>,
    offsets: Seq<Option<FileOffset>>,
    node: MergedNodeView,
    pos: int,
) -> Layout
    decreases unassigned(offsets), 4int, 0int,
{
    let at_parent = pos + NODE_RECORD_SIZE;
    let parent = lazy_layout(nodes, offsets, node.parent, at_parent);
    let at_child = at_parent + parent.bytes.len();
    let child = lazy_layout(nodes, carried(offsets, parent.offsets), node.child, at_child);
    let at_neighbors = at_child + child.bytes.len();
    let neighbors = entries_layout(
        nodes,
        carried(offsets, child.offsets),
        eager_entries(node.neighbors),
        false,
        at_neighbors,
    );
    let at_versions = at_neighbors + neighbors.bytes.len();
    let versions = entries_layout(
        nodes,
        carried(offsets, neighbors.offsets),
        keyed_entries(node.versions),
        false,
        at_versions,
    );
    Layout {
        bytes: node_record(
            node.version_id,
            node.hnsw_level,
            prop_fields(node.prop),
            parent.value,
            child.value,
            neighbors.value,
            versions.value,
        ) + parent.bytes + child.bytes + neighbors.bytes + versions.bytes,
        offsets: versions.offsets,
        value: pos as u32,
    }
}

/// A collection written at `pos`: nothing, and the absent offset, when it is
/// empty; else its chain of chunks, and `pos`.
#[verifier::opaque]
pub open spec fn entries_layout(
    nodes: Seq<MergedNodeView>,
    offsets: Seq<Option<FileOffset>>,
    entries: Seq<EntryView>,
    direct: bool,
    pos: int,
) -> ChainLayout
    decreases unassigned(offsets), 3int, 0int,
{
    if entries.len() == 0 {
        ChainLayout {
            bytes: Seq::empty(),
            offsets,
            value: u32::MAX,
            slots: Seq::empty(),
            targets: Seq::empty(),
        }
    } else {
        chunks_layout(nodes, offsets, entries, direct, pos)
    }
}

/// The chain of chunks for `entries`, the first at `pos`: the head of the
/// chunk, its entries, then the chunks for the entries that are left.
#[verifier::opaque]
pub open spec fn chunks_layout(
    nodes: Seq<MergedNodeView>,
    offsets: Seq<Option<FileOffset>>,
    entries: Seq<EntryView>,
    direct: bool,
    pos: int,
) -> ChainLayout
    decreases unassigned(offsets), 2int, entries.len(),
{
    if entries.len() == 0 {
        ChainLayout {
            bytes: Seq::empty(),
            offsets,
            value: pos as u32,
            slots: Seq::empty(),
            targets: Seq::empty(),
        }
    } else {
        let k = if entries.len() < CHUNK_SIZE {
            entries.len() as int
        } else {
            CHUNK_SIZE as int
        };
        let body = items_layout(
            nodes,
            offsets,
            entries.subrange(0, k),
            direct,
            pos + CHUNK_HEAD_SIZE,
        );
        let next = pos + CHUNK_HEAD_SIZE + body.bytes.len();
        let rest = entries.subrange(k, entries.len() as int);
        let tail = chunks_layout(nodes, carried(offsets, body.offsets), rest, direct, next);
        ChainLayout {
            bytes: chunk_head(
                body.slots,
                if rest.len() == 0 {
                    u32::MAX
                } else {
                    next as u32
                },
            ) + body.bytes + tail.bytes,
            offsets: tail.offsets,
            value: pos as u32,
            slots: body.slots + tail.slots,
            targets: body.targets + tail.targets,
        }
    }
}

/// The entries of one chunk, the first at `pos`. A direct entry is its item
/// and its slot is the item's offset. Any other entry is its prefix, the
/// offset of its item, and the item; its slot is where the entry starts.
#[verifier::opaque]
pub open spec fn items_layout(
    nodes: Seq<MergedNodeView>,
    offsets: Seq<Option<FileOffset>>,
    items: Seq<EntryView>,
    direct: bool,
    pos: int,
) -> ItemsLayout
    decreases unassigned(offsets), 1int, items.len(),
{
    if items.len() == 0 {
        ItemsLayout { bytes: Seq::empty(), offsets, slots: Seq::empty(), targets: Seq::empty() }
    } else {
        let first = entry_layout(nodes, offsets, items[0], direct, pos);
        let rest = items_layout(
            nodes,
            carried(offsets, first.offsets),
            items.drop_first(),
            direct,
            pos + first.bytes.len(),
        );
        ItemsLayout {
            bytes: first.bytes + rest.bytes,
            offsets: rest.offsets,
            slots: seq![first.value] + rest.slots,
            targets: seq![entry_target(nodes, offsets, items[0], direct, pos)] + rest.targets,
        }
    }
}

/// The offset written for the item of an entry that is written at `pos`.
#[verifier::opaque]
pub open spec fn entry_target(
    nodes: Seq<MergedNodeView>,
    offsets: Seq<Option<FileOffset>>,
    entry: EntryView,
    direct: bool,
    pos: int,
) -> u32
    decreases unassigned(offsets), 0int, 1int,
{
    if direct {
        lazy_layout(nodes, offsets, entry.item, pos).value
    } else {
        lazy_layout(nodes, offsets, entry.item, pos + entry.prefix.len() + 4).value
    }
}

/// One entry written at `pos`, with its slot as the value.
#[verifier::opaque]
pub open spec fn entry_layout(
    nodes: Seq<MergedNodeView>,
    offsets: Seq<Option<FileOffset>>,
    entry: EntryView,
    direct: bool,
    pos: int,
) -> Layout
    decreases unassigned(offsets), 0int, 1int,
{
    if direct {
        lazy_layout(nodes, offsets, entry.item, pos)
    } else {
        let item = lazy_layout(nodes, offsets, entry.item, pos + entry.prefix.len() + 4);
        Layout {
            bytes: entry.prefix + le32(item.value) + item.bytes,
            offsets: item.offsets,
            value: pos as u32,
        }
    }
}

/// What `lazy_layout` is, one step deep.
pub proof fn lemma_lazy_layout(
    nodes: Seq<MergedNodeView>,
    offsets: Seq<Option<FileOffset>>,
    item: LazyItem,
    pos: int,
)
    ensures
        lazy_layout(nodes, offsets, item, pos) == match lazy_offset(offsets, item) {
            Some(o) => Layout { bytes: Seq::empty(), offsets, value: o },
            None => {
                if item.data() is Some && item.data().unwrap() < nodes.len()
                    && item.data().unwrap() < offsets.len() {
                    node_layout(
                        nodes,
                        offsets.update(item.data().unwrap() as int, Some(pos as u32)),
                        nodes[item.data().unwrap() as int],
                        pos,
                    )
                } else {
                    Layout { bytes: Seq::empty(), offsets, value: u32::MAX }
                }
            },
        },
{
    reveal_with_fuel(lazy_layout, 1);
    reveal_with_fuel(node_layout, 1);
    reveal_with_fuel(entries_layout, 1);
    reveal_with_fuel(chunks_layout, 1);
    reveal_with_fuel(items_layout, 1);
    reveal_with_fuel(entry_layout, 1);
    reveal_with_fuel(entry_target, 1);
    if lazy_offset(offsets, item) is None && item.data() is Some && item.data().unwrap()
        < nodes.len() && item.data().unwrap() < offsets.len() {
        lemma_unassigned_update(offsets, item.data().unwrap() as int, pos as u32);
    }
}

/// What `node_layout` is, one step deep.
pub proof fn lemma_node_layout(
    nodes: Seq<MergedNodeView>,
    offsets: Seq<Option<FileOffset>>,
    node: MergedNodeView,
    pos: int,
)
    ensures
        ({
            let parent = lazy_layout(nodes, offsets, node.parent, pos + 27);
            let child = lazy_layout(
                nodes,
                carried(offsets, parent.offsets),
                node.child,
                pos + 27 + parent.bytes.len(),
            );
            let neighbors = entries_layout(
                nodes,
                carried(offsets, child.offsets),
                eager_entries(node.neighbors),
                false,
                pos + 27 + parent.bytes.len() + child.bytes.len(),
            );
            let versions = entries_layout(
                nodes,
                carried(offsets, neighbors.offsets),
                keyed_entries(node.versions),
                false,
                pos + 27 + parent.bytes.len() + child.bytes.len() + neighbors.bytes.len(),
            );
            node_layout(nodes, offsets, node, pos) == (Layout {
                bytes: node_record(
                    node.version_id,
                    node.hnsw_level,
                    prop_fields(node.prop),
                    parent.value,
                    child.value,
                    neighbors.value,
                    versions.value,
                ) + parent.bytes + child.bytes + neighbors.bytes + versions.bytes,
                offsets: versions.offsets,
                value: pos as u32,
            })
        }),
{
    reveal_with_fuel(lazy_layout, 1);
    reveal_with_fuel(node_layout, 1);
    reveal_with_fuel(entries_layout, 1);
    reveal_with_fuel(chunks_layout, 1);
    reveal_with_fuel(items_layout, 1);
    reveal_with_fuel(entry_layout, 1);
    reveal_with_fuel(entry_target, 1);
}

/// What `entries_layout` is, one step deep.
pub proof fn lemma_entries_layout(
    nodes: Seq<MergedNodeView>,
    offsets: Seq<Option<FileOffset>>,
    entries: Seq<EntryView>,
    direct: bool,
    pos: int,
)
    ensures
        entries_layout(nodes, offsets, entries, direct, pos) == if entries.len() == 0 {
            ChainLayout {
                bytes: Seq::empty(),
                offsets,
                value: u32::MAX,
                slots: Seq::empty(),
                targets: Seq::empty(),
            }
        } else {
            chunks_layout(nodes, offsets, entries, direct, pos)
        },
{
    reveal_with_fuel(lazy_layout, 1);
    reveal_with_fuel(node_layout, 1);
    reveal_with_fuel(entries_layout, 1);
    reveal_with_fuel(chunks_layout, 1);
    reveal_with_fuel(items_layout, 1);
    reveal_with_fuel(entry_layout, 1);
    reveal_with_fuel(entry_target, 1);
}

/// What `chunks_layout` is, one step deep.
pub proof fn lemma_chunks_layout(
    nodes: Seq<MergedNodeView>,
    offsets: Seq<Option<FileOffset>>,
    entries: Seq<EntryView>,
    direct: bool,
    pos: int,
)
    ensures
        entries.len() == 0 ==> chunks_layout(nodes, offsets, entries, direct, pos)
            == (ChainLayout {
            bytes: Seq::empty(),
            offsets,
            value: pos as u32,
            slots: Seq::empty(),
            targets: Seq::empty(),
        }),
        entries.len() > 0 ==> ({
            let k = if entries.len() < 5 {
                entries.len() as int
            } else {
                5
            };
            let body = items_layout(nodes, offsets, entries.subrange(0, k), direct, pos + 24);
            let next = pos + 24 + body.bytes.len();
            let rest = entries.subrange(k, entries.len() as int);
            let tail = chunks_layout(nodes, carried(offsets, body.offsets), rest, direct, next);
            chunks_layout(nodes, offsets, entries, direct, pos) == (ChainLayout {
                bytes: chunk_head(
                    body.slots,
                    if rest.len() == 0 {
                        u32::MAX
                    } else {
                        next as u32
                    },
                ) + body.bytes + tail.bytes,
                offsets: tail.offsets,
                value: pos as u32,
                slots: body.slots + tail.slots,
                targets: body.targets + tail.targets,
            })
        }),
{
    reveal_with_fuel(lazy_layout, 1);
    reveal_with_fuel(node_layout, 1);
    reveal_with_fuel(entries_layout, 1);
    reveal_with_fuel(chunks_layout, 1);
    reveal_with_fuel(items_layout, 1);
    reveal_with_fuel(entry_layout, 1);
    reveal_with_fuel(entry_target, 1);
}

/// What `items_layout` is, one step deep.
pub proof fn lemma_items_layout(
    nodes: Seq<MergedNodeView>,
    offsets: Seq<Option<FileOffset>>,
    items: Seq<EntryView>,
    direct: bool,
    pos: int,
)
    ensures
        items.len() == 0 ==> items_layout(nodes, offsets, items, direct, pos) == (ItemsLayout {
            bytes: Seq::empty(),
            offsets,
            slots: Seq::empty(),
            targets: Seq::empty(),
        }),
        items.len() > 0 ==> ({
            let first = entry_layout(nodes, offsets, items[0], direct, pos);
            let rest = items_layout(
                nodes,
                carried(offsets, first.offsets),
                items.drop_first(),
                direct,
                pos + first.bytes.len(),
            );
            items_layout(nodes, offsets, items, direct, pos) == (ItemsLayout {
                bytes: first.bytes + rest.bytes,
                offsets: rest.offsets,
                slots: seq![first.value] + rest.slots,
                targets: seq![entry_target(nodes, offsets, items[0], direct, pos)]
                    + rest.targets,
            })
        }),
{
    reveal_with_fuel(lazy_layout, 1);
    reveal_with_fuel(node_layout, 1);
    reveal_with_fuel(entries_layout, 1);
    reveal_with_fuel(chunks_layout, 1);
    reveal_with_fuel(items_layout, 1);
    reveal_with_fuel(entry_layout, 1);
    reveal_with_fuel(entry_target, 1);
}

/// What `entry_target` is.
pub proof fn lemma_entry_target(
    nodes: Seq<MergedNodeView>,
    offsets: Seq<Option<FileOffset>>,
    entry: EntryView,
    direct: bool,
    pos: int,
)
    ensures
        entry_target(nodes, offsets, entry, direct, pos) == lazy_layout(
            nodes,
            offsets,
            entry.item,
            if direct {
                pos
            } else {
                pos + entry.prefix.len() + 4
            },
        ).value,
{
    reveal_with_fuel(lazy_layout, 1);
    reveal_with_fuel(node_layout, 1);
    reveal_with_fuel(entries_layout, 1);
    reveal_with_fuel(chunks_layout, 1);
    reveal_with_fuel(items_layout, 1);
    reveal_with_fuel(entry_layout, 1);
    reveal_with_fuel(entry_target, 1);
}

/// What `entry_layout` is, one step deep.
pub proof fn lemma_entry_layout(
    nodes: Seq<MergedNodeView>,
    offsets: Seq<Option<FileOffset>>,
    entry: EntryView,
    direct: bool,
    pos: int,
)
    ensures
        direct ==> entry_layout(nodes, offsets, entry, direct, pos) == lazy_layout(
            nodes,
            offsets,
            entry.item,
            pos,
        ),
        !direct ==> ({
            let item = lazy_layout(nodes, offsets, entry.item, pos + entry.prefix.len() + 4);
            entry_layout(nodes, offsets, entry, direct, pos) == (Layout {
                bytes: entry.prefix + le32(item.value) + item.bytes,
                offsets: item.offsets,
                value: pos as u32,
            })
        }),
{
    reveal_with_fuel(lazy_layout, 1);
    reveal_with_fuel(node_layout, 1);
    reveal_with_fuel(entries_layout, 1);
    reveal_with_fuel(chunks_layout, 1);
    reveal_with_fuel(items_layout, 1);
    reveal_with_fuel(entry_layout, 1);
    reveal_with_fuel(entry_target, 1);
}

} // verus!
