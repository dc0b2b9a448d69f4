//! What holds of every registry, whatever was loaded into it.
//!
//! A registered offset stands for one node of the arena, and that node is
//! what the record at the offset says. Loads keep this, and they only add:
//! no node, no registered item and no offset in progress is ever taken
//! away. An offset that was loaded once is therefore found again, as the
//! same item.

use crate::models::cache_loader::{
    collection_slots, header_at, lemma_load_entries, lemma_load_entry, lemma_load_lazy,
    lemma_load_node, load_entries, load_entry, load_lazy, load_node, persisted_id, EntryKind,
    LoadState, LoadedEntryView, RegistryState, MAX_LOADS,
};
use crate::models::common::LoadError;
use crate::models::endian::read32;
use crate::models::identity_collections::{
    keys_distinct, lemma_inserted_all_entries, lemma_inserted_all_keys, KeyView,
};
use crate::models::lazy_load::{EagerLazyItem, LazyItem, LazyItemId};
use crate::models::serializer::lazy_item_map::{
    key_at, key_encodable, lemma_key_at_encodable, record_at,
};
use crate::models::types::{MergedNodeView, PropState};
use vstd::prelude::*;

verus! {

/// `item` is what a load of `offset` gives: the invalid item for the absent
/// offset, else a valid item that holds the offset.
pub open spec fn item_at(item: LazyItem, offset: u32) -> bool {
    if offset == u32::MAX {
        item is Invalid
    } else {
        item is Valid && item.offset() == Some(offset)
    }
}

/// `node` is what the record at `offset` says: its version, its level, the
/// place of its property, and the offsets of its parent and its child.
pub open spec fn node_reads(bytes: Seq<u8>, offset: u32, node: MergedNodeView) -> bool {
    let h = header_at(bytes, offset as int);
    &&& record_at(bytes, offset, 27) is Ok
    &&& node.version_id == h.version_id
    &&& node.hnsw_level == h.hnsw_level
    &&& node.prop == PropState::Pending(h.prop)
    &&& item_at(node.parent, h.parent)
    &&& item_at(node.child, h.child)
    &&& !node.persist_flag
}

/// `entry` is what `slot` points to.
pub open spec fn entry_reads(bytes: Seq<u8>, slot: u32, kind: EntryKind, entry: LoadedEntryView)
    -> bool {
    match kind {
        EntryKind::Plain => item_at(entry.item, slot),
        EntryKind::Eager => {
            &&& record_at(bytes, slot, 8) is Ok
            &&& entry.similarity == read32(bytes, slot as int)
            &&& item_at(entry.item, read32(bytes, slot + 4))
        },
        EntryKind::Keyed => {
            &&& key_at(bytes, slot) is Ok
            &&& entry.key == key_at(bytes, slot)->Ok_0.0
            &&& key_at(bytes, slot)->Ok_0.1 + 4 <= bytes.len()
            &&& item_at(entry.item, read32(bytes, key_at(bytes, slot)->Ok_0.1))
        },
    }
}

/// The item registered for `k` holds `k` and a node of the arena that was
/// loaded from `k`.
pub open spec fn registered(bytes: Seq<u8>, st: LoadState, k: u32) -> bool {
    &&& k != u32::MAX
    &&& st.registry[k] is Valid
    &&& st.registry[k].offset() == Some(k)
    &&& st.registry[k].data() is Some
    &&& st.registry[k].data().unwrap() < st.nodes.len()
    &&& st.offsets[st.registry[k].data().unwrap() as int] == Some(k)
    &&& node_reads(bytes, k, st.nodes[st.registry[k].data().unwrap() as int])
}

/// The arena is one that a machine can hold, and every registered offset
/// is registered rightly.
pub open spec fn consistent(bytes: Seq<u8>, st: LoadState) -> bool {
    &&& st.nodes.len() == st.offsets.len()
    &&& st.nodes.len() <= usize::MAX
    &&& forall|k: u32| #[trigger] st.registry.contains_key(k) ==> registered(bytes, st, k)
}

/// `b` holds every node and every registered item that `a` holds.
pub open spec fn extends(a: LoadState, b: LoadState) -> bool {
    &&& a.nodes.len() <= b.nodes.len()
    &&& a.offsets.len() <= b.offsets.len()
    &&& forall|i: int| 0 <= i < a.nodes.len() ==> #[trigger] b.nodes[i] == a.nodes[i]
    &&& forall|i: int| 0 <= i < a.offsets.len() ==> #[trigger] b.offsets[i] == a.offsets[i]
    &&& forall|k: u32| #[trigger]
        a.registry.contains_key(k) ==> b.registry.contains_key(k) && b.registry[k] == a.registry[k]
}

/// Whether a registry is consistent does not depend on what is in progress.
pub proof fn lemma_consistent_at_rest(bytes: Seq<u8>, st: LoadState)
    requires
        consistent(bytes, st),
    ensures
        consistent(bytes, LoadState { skip: Set::empty(), ..st }),
{
    let rest = LoadState { skip: Set::empty(), ..st };
    assert forall|k: u32| #[trigger] rest.registry.contains_key(k) implies registered(
        bytes,
        rest,
        k,
    ) by {
        assert(registered(bytes, st, k));
    }
}

/// A load of an item only adds to the arena and the registry.
pub proof fn lemma_load_lazy_extends(bytes: Seq<u8>, st: LoadState, offset: u32, max_loads: u16)
    ensures
        extends(st, load_lazy(bytes, st, offset, max_loads).1),
    decreases max_loads, 0int, 0int,
{
    lemma_load_lazy(bytes, st, offset, max_loads);
    if offset != u32::MAX && !st.registry.contains_key(offset) && max_loads > 0
        && !st.skip.contains(offset) {
        let entered = LoadState { skip: st.skip.insert(offset), ..st };
        lemma_load_node_extends(bytes, entered, offset, (max_loads - 1) as u16);
        let after = load_node(bytes, entered, offset, (max_loads - 1) as u16).1;
        let done = load_lazy(bytes, st, offset, max_loads).1;
        assert forall|k: u32| #[trigger] st.registry.contains_key(k) implies {
            &&& done.registry.contains_key(k)
            &&& done.registry[k] == st.registry[k]
        } by {
            assert(entered.registry.contains_key(k));
            assert(after.registry.contains_key(k));
        }
        assert forall|i: int| 0 <= i < st.nodes.len() implies #[trigger] done.nodes[i]
            == st.nodes[i] by {
            assert(after.nodes[i] == entered.nodes[i]);
        }
        assert forall|i: int| 0 <= i < st.offsets.len() implies #[trigger] done.offsets[i]
            == st.offsets[i] by {
            assert(after.offsets[i] == entered.offsets[i]);
        }
    }
}

/// A load of a node only adds to the arena and the registry.
pub proof fn lemma_load_node_extends(bytes: Seq<u8>, st: LoadState, offset: u32, max_loads: u16)
    ensures
        extends(st, load_node(bytes, st, offset, max_loads).1),
    decreases max_loads, 3int, 0int,
{
    lemma_load_node(bytes, st, offset, max_loads);
    if record_at(bytes, offset, 27) is Ok {
        let h = header_at(bytes, offset as int);
        lemma_load_lazy_extends(bytes, st, h.parent, max_loads);
        let parent = load_lazy(bytes, st, h.parent, max_loads);
        lemma_load_lazy_extends(bytes, parent.1, h.child, max_loads);
        let child = load_lazy(bytes, parent.1, h.child, max_loads);
        let neighbor_slots = collection_slots(bytes, h.neighbors);
        if neighbor_slots is Ok {
            lemma_load_entries_extends(
                bytes,
                child.1,
                neighbor_slots.unwrap(),
                EntryKind::Eager,
                max_loads,
            );
            let neighbors = load_entries(
                bytes,
                child.1,
                neighbor_slots.unwrap(),
                EntryKind::Eager,
                max_loads,
            );
            let version_slots = collection_slots(bytes, h.versions);
            if version_slots is Ok {
                lemma_load_entries_extends(
                    bytes,
                    neighbors.1,
                    version_slots.unwrap(),
                    EntryKind::Keyed,
                    max_loads,
                );
            }
        }
    }
}

/// A load of entries only adds to the arena and the registry, and gives
/// one entry for each slot.
pub proof fn lemma_load_entries_extends(
    bytes: Seq<u8>,
    st: LoadState,
    slots: Seq<u32>,
    kind: EntryKind,
    max_loads: u16,
)
    ensures
        extends(st, load_entries(bytes, st, slots, kind, max_loads).1),
        load_entries(bytes, st, slots, kind, max_loads).0 matches Ok(entries) ==> entries.len()
            == slots.len(),
    decreases max_loads, 2int, slots.len(),
{
    lemma_load_entries(bytes, st, slots, kind, max_loads);
    if slots.len() > 0 {
        lemma_load_entry_extends(bytes, st, slots[0], kind, max_loads);
        let first = load_entry(bytes, st, slots[0], kind, max_loads);
        lemma_load_entries_extends(bytes, first.1, slots.drop_first(), kind, max_loads);
    }
}

/// A load of one entry only adds to the arena and the registry.
pub proof fn lemma_load_entry_extends(
    bytes: Seq<u8>,
    st: LoadState,
    slot: u32,
    kind: EntryKind,
    max_loads: u16,
)
    ensures
        extends(st, load_entry(bytes, st, slot, kind, max_loads).1),
    decreases max_loads, 1int, 0int,
{
    lemma_load_entry(bytes, st, slot, kind, max_loads);
    match kind {
        EntryKind::Plain => {
            lemma_load_lazy_extends(bytes, st, slot, max_loads);
        },
        EntryKind::Eager => {
            lemma_load_lazy_extends(bytes, st, read32(bytes, slot + 4), max_loads);
        },
        EntryKind::Keyed => {
            if key_at(bytes, slot) is Ok {
                lemma_load_lazy_extends(
                    bytes,
                    st,
                    read32(bytes, key_at(bytes, slot)->Ok_0.1),
                    max_loads,
                );
            }
        },
    }
}

/// A load of an item keeps the registry consistent. What it gives is an
/// item for the offset, and an item with a node is the registered one.
pub proof fn lemma_load_lazy_keeps(bytes: Seq<u8>, st: LoadState, offset: u32, max_loads: u16)
    requires
        consistent(bytes, st),
        load_lazy(bytes, st, offset, max_loads).1.nodes.len() <= usize::MAX,
    ensures
        ({
            let r = load_lazy(bytes, st, offset, max_loads);
            &&& consistent(bytes, r.1)
            &&& r.0 matches Ok(item) ==> {
                &&& item_at(item, offset)
                &&& item.data() is Some ==> r.1.registry.contains_key(offset)
                    && r.1.registry[offset] == item
            }
        }),
    decreases max_loads, 0int, 0int,
{
    lemma_load_lazy(bytes, st, offset, max_loads);
    if offset == u32::MAX {
    } else if st.registry.contains_key(offset) {
        assert(registered(bytes, st, offset));
    } else if max_loads == 0 || st.skip.contains(offset) {
    } else {
        let entered = LoadState { skip: st.skip.insert(offset), ..st };
        assert(consistent(bytes, entered)) by {
            assert forall|k: u32| #[trigger] entered.registry.contains_key(k) implies registered(
                bytes,
                entered,
                k,
            ) by {
                assert(registered(bytes, st, k));
            }
        }
        lemma_load_node_keeps(bytes, entered, offset, (max_loads - 1) as u16);
        let (node, after) = load_node(bytes, entered, offset, (max_loads - 1) as u16);
        match node {
            Err(e) => {},
            Ok(node) => {
                let item = LazyItem::Valid {
                    data: Some(after.nodes.len() as usize),
                    offset: Some(offset),
                    decay_counter: 0,
                };
                let done = LoadState {
                    nodes: after.nodes.push(node),
                    offsets: after.offsets.push(Some(offset)),
                    registry: after.registry.insert(offset, item),
                    skip: after.skip,
                };
                assert(load_lazy(bytes, st, offset, max_loads).1 == done);
                assert forall|k: u32| #[trigger] done.registry.contains_key(k) implies registered(
                    bytes,
                    done,
                    k,
                ) by {
                    if k != offset {
                        assert(after.registry.contains_key(k));
                        assert(registered(bytes, after, k));
                    }
                }
            },
        }
    }
}

/// A load of a node keeps the registry consistent. What it gives is what
/// the record says.
pub proof fn lemma_load_node_keeps(bytes: Seq<u8>, st: LoadState, offset: u32, max_loads: u16)
    requires
        consistent(bytes, st),
        load_node(bytes, st, offset, max_loads).1.nodes.len() <= usize::MAX,
    ensures
        ({
            let r = load_node(bytes, st, offset, max_loads);
            &&& consistent(bytes, r.1)
            &&& r.0 matches Ok(node) ==> node_reads(bytes, offset, node)
        }),
    decreases max_loads, 3int, 0int,
{
    lemma_load_node(bytes, st, offset, max_loads);
    if record_at(bytes, offset, 27) is Ok {
        let h = header_at(bytes, offset as int);
        let parent = load_lazy(bytes, st, h.parent, max_loads);
        let child = load_lazy(bytes, parent.1, h.child, max_loads);
        let neighbor_slots = collection_slots(bytes, h.neighbors);
        let neighbors = load_entries(
            bytes,
            child.1,
            neighbor_slots.unwrap(),
            EntryKind::Eager,
            max_loads,
        );
        let version_slots = collection_slots(bytes, h.versions);
        lemma_load_lazy_extends(bytes, st, h.parent, max_loads);
        lemma_load_lazy_extends(bytes, parent.1, h.child, max_loads);
        lemma_load_entries_extends(
            bytes,
            child.1,
            neighbor_slots.unwrap(),
            EntryKind::Eager,
            max_loads,
        );
        lemma_load_entries_extends(
            bytes,
            neighbors.1,
            version_slots.unwrap(),
            EntryKind::Keyed,
            max_loads,
        );
        lemma_load_lazy_keeps(bytes, st, h.parent, max_loads);
        if parent.0 is Ok {
            lemma_load_lazy_keeps(bytes, parent.1, h.child, max_loads);
            if child.0 is Ok && neighbor_slots is Ok {
                lemma_load_entries_keeps(
                    bytes,
                    child.1,
                    neighbor_slots.unwrap(),
                    EntryKind::Eager,
                    max_loads,
                );
                if neighbors.0 is Ok && version_slots is Ok {
                    lemma_load_entries_keeps(
                        bytes,
                        neighbors.1,
                        version_slots.unwrap(),
                        EntryKind::Keyed,
                        max_loads,
                    );
                }
            }
        }
    }
}

/// A load of entries keeps the registry consistent. Each entry is what its
/// slot points to, in the order of the slots.
pub proof fn lemma_load_entries_keeps(
    bytes: Seq<u8>,
    st: LoadState,
    slots: Seq<u32>,
    kind: EntryKind,
    max_loads: u16,
)
    requires
        consistent(bytes, st),
        load_entries(bytes, st, slots, kind, max_loads).1.nodes.len() <= usize::MAX,
    ensures
        ({
            let r = load_entries(bytes, st, slots, kind, max_loads);
            &&& consistent(bytes, r.1)
            &&& r.0 matches Ok(entries) ==> {
                &&& entries.len() == slots.len()
                &&& forall|i: int|
                    0 <= i < slots.len() ==> entry_reads(
                        bytes,
                        slots[i],
                        kind,
                        #[trigger] entries[i],
                    )
            }
        }),
    decreases max_loads, 2int, slots.len(),
{
    lemma_load_entries(bytes, st, slots, kind, max_loads);
    if slots.len() > 0 {
        let first = load_entry(bytes, st, slots[0], kind, max_loads);
        let rest = load_entries(bytes, first.1, slots.drop_first(), kind, max_loads);
        lemma_load_entry_extends(bytes, st, slots[0], kind, max_loads);
        lemma_load_entries_extends(bytes, first.1, slots.drop_first(), kind, max_loads);
        lemma_load_entry_keeps(bytes, st, slots[0], kind, max_loads);
        if first.0 is Ok {
            lemma_load_entries_keeps(bytes, first.1, slots.drop_first(), kind, max_loads);
            if rest.0 is Ok {
                let entries = seq![first.0->Ok_0] + rest.0->Ok_0;
                assert forall|i: int| 0 <= i < slots.len() implies entry_reads(
                    bytes,
                    slots[i],
                    kind,
                    #[trigger] entries[i],
                ) by {
                    if i > 0 {
                        assert(entries[i] == rest.0->Ok_0[i - 1]);
                        assert(slots[i] == slots.drop_first()[i - 1]);
                    }
                }
            }
        }
    }
}

/// A load of one entry keeps the registry consistent. What it gives is
/// what the slot points to.
pub proof fn lemma_load_entry_keeps(
    bytes: Seq<u8>,
    st: LoadState,
    slot: u32,
    kind: EntryKind,
    max_loads: u16,
)
    requires
        consistent(bytes, st),
        load_entry(bytes, st, slot, kind, max_loads).1.nodes.len() <= usize::MAX,
    ensures
        ({
            let r = load_entry(bytes, st, slot, kind, max_loads);
            &&& consistent(bytes, r.1)
            &&& r.0 matches Ok(entry) ==> entry_reads(bytes, slot, kind, entry)
        }),
    decreases max_loads, 1int, 0int,
{
    lemma_load_entry(bytes, st, slot, kind, max_loads);
    match kind {
        EntryKind::Plain => {
            lemma_load_lazy_keeps(bytes, st, slot, max_loads);
        },
        EntryKind::Eager => {
            if record_at(bytes, slot, 8) is Ok {
                lemma_load_lazy_keeps(bytes, st, read32(bytes, slot + 4), max_loads);
            }
        },
        EntryKind::Keyed => {
            if key_at(bytes, slot) is Ok {
                let end = key_at(bytes, slot)->Ok_0.1;
                if end + 4 <= bytes.len() {
                    lemma_load_lazy_keeps(bytes, st, read32(bytes, end), max_loads);
                }
            }
        },
    }
}

/// An offset that was loaded into a registry is found again: whatever was
/// loaded since, and whatever is in progress, a load of it gives the item
/// that the first load gave, and changes nothing.
pub proof fn lemma_same_offset_same_item(
    bytes: Seq<u8>,
    st: LoadState,
    offset: u32,
    max_loads: u16,
    later: LoadState,
    later_loads: u16,
)
    requires
        consistent(bytes, st),
        load_lazy(bytes, st, offset, max_loads).0 is Ok,
        load_lazy(bytes, st, offset, max_loads).0->Ok_0.data() is Some,
        load_lazy(bytes, st, offset, max_loads).1.nodes.len() <= usize::MAX,
        extends(load_lazy(bytes, st, offset, max_loads).1, later),
    ensures
        load_lazy(bytes, later, offset, later_loads) == (
            load_lazy(bytes, st, offset, max_loads).0,
            later,
        ),
{
    lemma_load_lazy_keeps(bytes, st, offset, max_loads);
    let first = load_lazy(bytes, st, offset, max_loads);
    assert(first.1.registry.contains_key(offset));
    assert(later.registry.contains_key(offset));
    lemma_load_lazy(bytes, later, offset, later_loads);
}

/// A call from outside that loads an item for an offset gives an item with
/// a node, and the next such call for the offset gives the same item.
pub proof fn lemma_loaded_twice(cache: RegistryState, offset: u32)
    requires
        consistent(cache.bytes, cache.at_rest()),
        offset != u32::MAX,
        load_lazy(cache.bytes, cache.at_rest(), offset, MAX_LOADS).0 is Ok,
        load_lazy(cache.bytes, cache.at_rest(), offset, MAX_LOADS).1.nodes.len() <= usize::MAX,
    ensures
        ({
            let first = load_lazy(cache.bytes, cache.at_rest(), offset, MAX_LOADS);
            let second = load_lazy(cache.bytes, cache.after(first.1).at_rest(), offset, MAX_LOADS);
            &&& first.0->Ok_0.data() is Some
            &&& second.0 == first.0
            &&& cache.after(first.1).after(second.1) == cache.after(first.1)
        }),
{
    let first = load_lazy(cache.bytes, cache.at_rest(), offset, MAX_LOADS);
    lemma_load_lazy(cache.bytes, cache.at_rest(), offset, MAX_LOADS);
    lemma_load_lazy_keeps(cache.bytes, cache.at_rest(), offset, MAX_LOADS);
    if cache.registry.contains_key(offset) {
        assert(registered(cache.bytes, cache.at_rest(), offset));
    }
    let again = cache.after(first.1).at_rest();
    assert(extends(first.1, again));
    lemma_same_offset_same_item(cache.bytes, cache.at_rest(), offset, MAX_LOADS, again, MAX_LOADS);
}

/// A cycle in the file is a cycle in what was loaded. Where the record at
/// `a` names `b` as its parent and the record at `b` names `a` as its
/// child, and both were loaded, the parent of the node for `a` leads to the
/// node for `b`, and the child of that node leads back to the node for `a`.
pub proof fn lemma_cycle_returns(bytes: Seq<u8>, st: LoadState, a: u32, b: u32, max_loads: u16)
    requires
        consistent(bytes, st),
        st.registry.contains_key(a),
        st.registry.contains_key(b),
        header_at(bytes, a as int).parent == b,
        header_at(bytes, b as int).child == a,
    ensures
        ({
            let node_a = st.nodes[st.registry[a].data().unwrap() as int];
            let node_b = st.nodes[st.registry[b].data().unwrap() as int];
            &&& node_a.parent.offset() == Some(b)
            &&& load_lazy(bytes, st, b, max_loads) == (
                Ok::<LazyItem, LoadError>(st.registry[b]),
                st,
            )
            &&& node_b.child.offset() == Some(a)
            &&& load_lazy(bytes, st, a, max_loads) == (
                Ok::<LazyItem, LoadError>(st.registry[a]),
                st,
            )
        }),
{
    assert(registered(bytes, st, a));
    assert(registered(bytes, st, b));
    lemma_load_lazy(bytes, st, a, max_loads);
    lemma_load_lazy(bytes, st, b, max_loads);
}

/// A link of a loaded node leads to the node that was loaded for its
/// offset. Where the record at `a` names `b` as its parent or as its child,
/// and both were loaded, the link of the node for `a` holds the offset `b`,
/// and a load of `b` gives the item that is registered for `b` and changes
/// nothing. So a walk along a cycle, however long, comes back to the handle
/// that it started from.
pub proof fn lemma_link_returns(bytes: Seq<u8>, st: LoadState, a: u32, b: u32, max_loads: u16)
    requires
        consistent(bytes, st),
        st.registry.contains_key(a),
        st.registry.contains_key(b),
        header_at(bytes, a as int).parent == b || header_at(bytes, a as int).child == b,
    ensures
        ({
            let node_a = st.nodes[st.registry[a].data().unwrap() as int];
            &&& header_at(bytes, a as int).parent == b ==> node_a.parent.offset() == Some(b)
            &&& header_at(bytes, a as int).child == b ==> node_a.child.offset() == Some(b)
            &&& load_lazy(bytes, st, b, max_loads) == (
                Ok::<LazyItem, LoadError>(st.registry[b]),
                st,
            )
        }),
{
    assert(registered(bytes, st, a));
    assert(registered(bytes, st, b));
    lemma_load_lazy(bytes, st, b, max_loads);
}

/// A load never enters an offset that is being loaded further up, nor any
/// offset once no load is left: it gives the item that holds the offset
/// and no node, and changes nothing. This is what ends a cycle, and what
/// bounds the depth of a load.
pub proof fn lemma_cycle_ends(bytes: Seq<u8>, st: LoadState, offset: u32, max_loads: u16)
    requires
        offset != u32::MAX,
        !st.registry.contains_key(offset),
        max_loads == 0 || st.skip.contains(offset),
    ensures
        load_lazy(bytes, st, offset, max_loads) == (
            Ok::<LazyItem, LoadError>(
                LazyItem::Valid { data: None, offset: Some(offset), decay_counter: 0 },
            ),
            st,
        ),
{
    lemma_load_lazy(bytes, st, offset, max_loads);
}

/// The absent offset is never the offset of a record: no node is loaded
/// from it, and the item for it is the invalid item.
pub proof fn lemma_absent_offset(bytes: Seq<u8>, st: LoadState, max_loads: u16)
    ensures
        load_node(bytes, st, u32::MAX, max_loads) == (
            Err::<MergedNodeView, LoadError>(LoadError::Corrupt),
            st,
        ),
        load_lazy(bytes, st, u32::MAX, max_loads) == (
            Ok::<LazyItem, LoadError>(LazyItem::Invalid),
            st,
        ),
{
    lemma_load_node(bytes, st, u32::MAX, max_loads);
    lemma_load_lazy(bytes, st, u32::MAX, max_loads);
}

/// `item` is invalid or holds an offset, which is not the absent one.
pub open spec fn persisted(item: LazyItem) -> bool {
    item is Invalid || (item.offset() is Some && item.offset() != Some(u32::MAX))
}

/// `node` is a node as a load leaves it: its property is pending, every
/// link of it is invalid or holds an offset, every neighbour is held under
/// the offset of its node, and every key of its versions can be encoded.
pub open spec fn on_disk(node: MergedNodeView) -> bool {
    &&& node.prop is Pending
    &&& !node.persist_flag
    &&& persisted(node.parent)
    &&& persisted(node.child)
    &&& keys_distinct(node.neighbors)
    &&& forall|i: int|
        0 <= i < node.neighbors.len() ==> (#[trigger] node.neighbors[i]).0 == persisted_id(
            node.neighbors[i].1.1,
        ) && persisted(node.neighbors[i].1.1)
    &&& keys_distinct(node.versions)
    &&& forall|i: int|
        0 <= i < node.versions.len() ==> persisted((#[trigger] node.versions[i]).1)
            && key_encodable(node.versions[i].0)
}

/// A node that was loaded is on disk.
pub proof fn lemma_loaded_on_disk(bytes: Seq<u8>, st: LoadState, offset: u32, max_loads: u16)
    requires
        consistent(bytes, st),
        load_node(bytes, st, offset, max_loads).0 is Ok,
        load_node(bytes, st, offset, max_loads).1.nodes.len() <= usize::MAX,
    ensures
        on_disk(load_node(bytes, st, offset, max_loads).0->Ok_0),
{
    lemma_load_node(bytes, st, offset, max_loads);
    lemma_load_node_keeps(bytes, st, offset, max_loads);
    let h = header_at(bytes, offset as int);
    let loaded = load_node(bytes, st, offset, max_loads).0->Ok_0;
    assert(node_reads(bytes, offset, loaded));
    let p = load_lazy(bytes, st, h.parent, max_loads);
    let c = load_lazy(bytes, p.1, h.child, max_loads);
    let neighbor_slots = collection_slots(bytes, h.neighbors).unwrap();
    let n = load_entries(bytes, c.1, neighbor_slots, EntryKind::Eager, max_loads);
    let version_slots = collection_slots(bytes, h.versions).unwrap();
    let v = load_entries(bytes, n.1, version_slots, EntryKind::Keyed, max_loads);
    lemma_load_lazy_extends(bytes, st, h.parent, max_loads);
    lemma_load_lazy_extends(bytes, p.1, h.child, max_loads);
    lemma_load_entries_extends(bytes, c.1, neighbor_slots, EntryKind::Eager, max_loads);
    lemma_load_entries_extends(bytes, n.1, version_slots, EntryKind::Keyed, max_loads);
    lemma_load_lazy_keeps(bytes, st, h.parent, max_loads);
    lemma_load_lazy_keeps(bytes, p.1, h.child, max_loads);
    lemma_load_entries_keeps(bytes, c.1, neighbor_slots, EntryKind::Eager, max_loads);
    lemma_load_entries_keeps(bytes, n.1, version_slots, EntryKind::Keyed, max_loads);
    // The neighbours.
    let read = n.0->Ok_0;
    let pairs = read.map_values(
        |e: LoadedEntryView| (persisted_id(e.item), EagerLazyItem(e.similarity, e.item)),
    );
    let under_offset = |e: (LazyItemId, EagerLazyItem)|
        e.0 == persisted_id(e.1.1) && persisted(e.1.1);
    assert forall|i: int| 0 <= i < pairs.len() implies under_offset(#[trigger] pairs[i]) by {
        assert(entry_reads(bytes, neighbor_slots[i], EntryKind::Eager, read[i]));
    }
    lemma_inserted_all_keys(Seq::<(LazyItemId, EagerLazyItem)>::empty(), pairs);
    lemma_inserted_all_entries(Seq::<(LazyItemId, EagerLazyItem)>::empty(), pairs, under_offset);
    assert forall|i: int| 0 <= i < loaded.neighbors.len() implies (#[trigger] loaded.neighbors[i]).0
        == persisted_id(loaded.neighbors[i].1.1) && persisted(loaded.neighbors[i].1.1) by {
        assert(under_offset(loaded.neighbors[i]));
    }
    // The versions.
    let read = v.0->Ok_0;
    let pairs = read.map_values(|e: LoadedEntryView| (e.key, e.item));
    let encodable = |e: (KeyView, LazyItem)| persisted(e.1) && key_encodable(e.0);
    assert forall|i: int| 0 <= i < pairs.len() implies encodable(#[trigger] pairs[i]) by {
        assert(entry_reads(bytes, version_slots[i], EntryKind::Keyed, read[i]));
        lemma_key_at_encodable(bytes, version_slots[i]);
    }
    lemma_inserted_all_keys(Seq::<(KeyView, LazyItem)>::empty(), pairs);
    lemma_inserted_all_entries(Seq::<(KeyView, LazyItem)>::empty(), pairs, encodable);
    assert forall|i: int| 0 <= i < loaded.versions.len() implies persisted(
        (#[trigger] loaded.versions[i]).1,
    ) && key_encodable(loaded.versions[i].0) by {
        assert(encodable(loaded.versions[i]));
    }
}

} // verus!
