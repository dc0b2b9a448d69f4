//! Lazy cells: a node that is in memory, on disk, or both.

use crate::models::identity_collections::{
    inserted, IdentityMap, IdentityMapKey, IdentitySet, KeyView,
};
use crate::models::node_arena::{cells_with, lazy_id, lazy_offset, NodeArena};
use crate::models::types::{CosineSimilarity, FileOffset, Item, MergedNode};
use vstd::prelude::*;

verus! {

/// A value that knows whether what is on disk is behind what is in memory.
pub trait SyncPersist {
    /// Whether the value is yet to be written.
    spec fn persistence(&self) -> bool;

    fn set_persistence(&mut self, flag: bool)
        ensures
            final(self).persistence() == flag,
    ;

    fn needs_persistence(&self) -> (flag: bool)
        ensures
            flag == self.persistence(),
    ;
}

/// The number of entries in one chunk of a persisted collection.
pub const CHUNK_SIZE: usize = 5;

/// A node that is in memory (`data`), on disk (`offset`), or both. A valid
/// item has at least one of the two. The node is named by its handle, so
/// every copy of an item reads the same node; the offset of a node that is
/// in memory is recorded in the arena, where every copy reads it too.
#[derive(Clone, Copy, PartialEq, Eq, Structural, Debug)]
pub enum LazyItem {
    Valid { data: Option<Item>, offset: Option<FileOffset>, decay_counter: usize },
    Invalid,
}

/// A lazy item with a value that is always in memory beside it.
#[derive(Clone, Copy, PartialEq, Eq, Structural, Debug)]
pub struct EagerLazyItem(pub CosineSimilarity, pub LazyItem);

/// The identity under which a lazy item is held in a set: the offset of its
/// node where one is known, else the identity of the node in memory.
#[derive(Debug, Eq, PartialEq, Hash, Clone, Copy, Structural)]
pub enum LazyItemId {
    Memory(u64),
    Persist(u32),
}

/// The item made of `data` and `offset`: invalid when it has neither.
pub open spec fn lazy_of(data: Option<Item>, offset: Option<FileOffset>, decay_counter: usize)
    -> LazyItem {
    if data is None && offset is None {
        LazyItem::Invalid
    } else {
        LazyItem::Valid { data, offset, decay_counter }
    }
}

impl LazyItem {
    /// A valid item has a node in memory or an offset.
    pub open spec fn wf(&self) -> bool {
        self matches LazyItem::Valid { data, offset, .. } ==> data is Some || offset is Some
    }

    /// The node in memory, if the item has one.
    pub open spec fn data(&self) -> Option<Item> {
        match self {
            LazyItem::Valid { data, .. } => *data,
            LazyItem::Invalid => None,
        }
    }

    /// The offset that the item carries, if it has one.
    pub open spec fn offset(&self) -> Option<FileOffset> {
        match self {
            LazyItem::Valid { offset, .. } => *offset,
            LazyItem::Invalid => None,
        }
    }

    /// Puts `item` into `arena` and returns a cell that holds it in memory.
    pub fn new(item: MergedNode, arena: &mut NodeArena) -> (lazy: Self)
        requires
            old(arena).wf(),
        ensures
            final(arena).wf(),
            final(arena).cells@ == old(arena).cells@,
            final(arena)@ == old(arena)@.with_node(item@),
            lazy == (LazyItem::Valid {
                data: Some(old(arena)@.nodes.len() as usize),
                offset: None,
                decay_counter: 0,
            }),
    {
        let handle: Item = arena.insert(item);
        LazyItem::Valid { data: Some(handle), offset: None, decay_counter: 0 }
    }

    pub fn new_invalid() -> (lazy: Self)
        ensures
            lazy == LazyItem::Invalid,
    {
        LazyItem::Invalid
    }

    /// Puts `data` into `arena` and returns a cell that holds it in memory.
    pub fn from_data(data: MergedNode, arena: &mut NodeArena) -> (lazy: Self)
        requires
            old(arena).wf(),
        ensures
            final(arena).wf(),
            final(arena).cells@ == old(arena).cells@,
            final(arena)@ == old(arena)@.with_node(data@),
            lazy == (LazyItem::Valid {
                data: Some(old(arena)@.nodes.len() as usize),
                offset: None,
                decay_counter: 0,
            }),
    {
        let handle: Item = arena.insert(data);
        LazyItem::Valid { data: Some(handle), offset: None, decay_counter: 0 }
    }

    /// A cell for a node that is in an arena already.
    pub fn from_item(item: Item) -> (lazy: Self)
        ensures
            lazy == (LazyItem::Valid { data: Some(item), offset: None, decay_counter: 0 }),
    {
        LazyItem::Valid { data: Some(item), offset: None, decay_counter: 0 }
    }

    /// A cell for a node that is on disk only.
    pub fn from_offset(offset: FileOffset) -> (lazy: Self)
        ensures
            lazy == (LazyItem::Valid { data: None, offset: Some(offset), decay_counter: 0 }),
    {
        LazyItem::Valid { data: None, offset: Some(offset), decay_counter: 0 }
    }

    pub fn is_valid(&self) -> (b: bool)
        ensures
            b == (self is Valid),
    {
        match self {
            LazyItem::Valid { .. } => true,
            LazyItem::Invalid => false,
        }
    }

    pub fn is_invalid(&self) -> (b: bool)
        ensures
            b == (self is Invalid),
    {
        match self {
            LazyItem::Valid { .. } => false,
            LazyItem::Invalid => true,
        }
    }

    pub fn get_data(&self) -> (data: Option<Item>)
        ensures
            data == self.data(),
    {
        match self {
            LazyItem::Valid { data, .. } => *data,
            LazyItem::Invalid => None,
        }
    }

    /// Puts `new_data` into `arena` and makes it the node of a valid item.
    /// An invalid item stays as it is, and so does `arena`.
    pub fn set_data(&mut self, new_data: MergedNode, arena: &mut NodeArena)
        requires
            old(arena).wf(),
        ensures
            final(arena).wf(),
            final(arena).cells@ == old(arena).cells@,
            *old(self) is Invalid ==> *final(self) == *old(self) && final(arena)@ == old(arena)@,
            *old(self) matches LazyItem::Valid { offset, decay_counter, .. } ==> {
                &&& final(arena)@ == old(arena)@.with_node(new_data@)
                &&& *final(self) == (LazyItem::Valid {
                    data: Some(old(arena)@.nodes.len() as usize),
                    offset,
                    decay_counter,
                })
            },
    {
        match *self {
            LazyItem::Valid { offset, decay_counter, .. } => {
                let handle: Item = arena.insert(new_data);
                *self = LazyItem::Valid { data: Some(handle), offset, decay_counter };
            },
            LazyItem::Invalid => {},
        }
    }

    /// The offset that is known for the item in `arena`: the one that it
    /// carries, else the one recorded for its node.
    pub fn get_offset(&self, arena: &NodeArena) -> (offset: Option<FileOffset>)
        requires
            arena.wf(),
        ensures
            offset == lazy_offset(arena@.offsets, *self),
    {
        arena.lazy_offset(self)
    }

    /// Replaces the offset of a valid item, on the item and for its node in
    /// `arena`, so that every item of that node that carries no offset of
    /// its own reads the new one. An item left with neither a node nor an
    /// offset becomes invalid; an invalid item stays as it is, and then so
    /// does `arena`.
    pub fn set_offset(&mut self, new_offset: Option<FileOffset>, arena: &mut NodeArena)
        requires
            old(arena).wf(),
        ensures
            final(arena).wf(),
            final(arena).cells@ == old(arena).cells@,
            final(arena)@.nodes == old(arena)@.nodes,
            *old(self) is Invalid ==> *final(self) == *old(self) && final(arena)@ == old(arena)@,
            *old(self) matches LazyItem::Valid { data, decay_counter, .. } ==> {
                &&& *final(self) == lazy_of(data, new_offset, decay_counter)
                &&& final(arena)@.offsets == if data is Some && data.unwrap() < old(
                    arena,
                )@.nodes.len() {
                    old(arena)@.offsets.update(data.unwrap() as int, new_offset)
                } else {
                    old(arena)@.offsets
                }
                &&& lazy_offset(final(arena)@.offsets, *final(self)) == new_offset
            },
            final(self).wf(),
    {
        match *self {
            LazyItem::Valid { data, decay_counter, .. } => {
                if let Some(handle) = data {
                    if handle < arena.len() {
                        arena.set_offset_of(handle, new_offset);
                    }
                }
                if data.is_none() && new_offset.is_none() {
                    *self = LazyItem::Invalid;
                } else {
                    *self = LazyItem::Valid { data, offset: new_offset, decay_counter };
                }
            },
            LazyItem::Invalid => {},
        }
    }

    /// The identity of the item in `arena`.
    pub fn get_id(&self, arena: &NodeArena) -> (id: LazyItemId)
        requires
            arena.wf(),
        ensures
            id == lazy_id(arena@, *self),
    {
        match self {
            LazyItem::Valid { data, offset, .. } => {
                if let Some(o) = offset {
                    return LazyItemId::Persist(*o);
                }
                if let Some(handle) = data {
                    if *handle < arena.len() {
                        if let Some(o) = arena.offset_of(*handle) {
                            return LazyItemId::Persist(o);
                        }
                        return LazyItemId::Memory(arena.get(*handle).get_id());
                    }
                }
                LazyItemId::Persist(u32::MAX)
            },
            LazyItem::Invalid => LazyItemId::Persist(u32::MAX),
        }
    }
}

impl EagerLazyItem {
    /// The identity of the lazy item in `arena`.
    pub fn get_id(&self, arena: &NodeArena) -> (id: LazyItemId)
        requires
            arena.wf(),
        ensures
            id == lazy_id(arena@, self.1),
    {
        self.1.get_id(arena)
    }
}

/// Where a lazy cell stands in an arena: on its own, or as the parent or the
/// child link of a node.
#[derive(Clone, Copy, PartialEq, Eq, Structural, Debug)]
pub enum CellPlace {
    Own(usize),
    Parent(Item),
    Child(Item),
}

/// A holder of one lazy cell of an arena. The cell stands in the arena
/// and the holder names it: copies of a holder name one cell, and what is
/// stored through one of them is read through all.
#[derive(Clone, Copy, PartialEq, Eq, Structural, Debug)]
pub struct LazyItemRef {
    pub place: CellPlace,
}

/// The decay counter that a cell keeps when it is stored anew.
pub open spec fn decay_of(item: LazyItem) -> usize {
    match item {
        LazyItem::Valid { decay_counter, .. } => decay_counter,
        LazyItem::Invalid => 0,
    }
}

impl LazyItemRef {
    /// Puts `item` into `arena` and returns the holder of a new cell that
    /// has it in memory.
    pub fn new(item: MergedNode, arena: &mut NodeArena) -> (r: Self)
        requires
            old(arena).wf(),
        ensures
            final(arena).wf(),
            final(arena)@ == old(arena)@.with_node(item@),
            r.place matches CellPlace::Own(cell) && cell == old(arena).cells@.len(),
            final(arena).cells@ == old(arena).cells@.push(
                LazyItem::Valid {
                    data: Some(old(arena)@.nodes.len() as usize),
                    offset: None,
                    decay_counter: 0,
                },
            ),
    {
        let lazy = LazyItem::new(item, arena);
        arena.new_cell(lazy)
    }

    /// The holder of a new cell that is invalid.
    pub fn new_invalid(arena: &mut NodeArena) -> (r: Self)
        ensures
            final(arena).wf() == old(arena).wf(),
            final(arena)@ == old(arena)@,
            r.place matches CellPlace::Own(cell) && cell == old(arena).cells@.len(),
            final(arena).cells@ == old(arena).cells@.push(LazyItem::Invalid),
    {
        arena.new_cell(LazyItem::Invalid)
    }

    /// The holder of a new cell for a node that is in `arena` already.
    pub fn from_item(item: Item, arena: &mut NodeArena) -> (r: Self)
        ensures
            final(arena).wf() == old(arena).wf(),
            final(arena)@ == old(arena)@,
            r.place matches CellPlace::Own(cell) && cell == old(arena).cells@.len(),
            final(arena).cells@ == old(arena).cells@.push(
                LazyItem::Valid { data: Some(item), offset: None, decay_counter: 0 },
            ),
    {
        arena.new_cell(LazyItem::from_item(item))
    }

    /// The holder of a new cell that holds `item`.
    pub fn from_lazy(item: LazyItem, arena: &mut NodeArena) -> (r: Self)
        ensures
            final(arena).wf() == old(arena).wf(),
            final(arena)@ == old(arena)@,
            r.place matches CellPlace::Own(cell) && cell == old(arena).cells@.len(),
            final(arena).cells@ == old(arena).cells@.push(item),
    {
        arena.new_cell(item)
    }

    /// The holder of the parent link of the node at `node`.
    pub fn parent_of(node: Item) -> (r: Self)
        ensures
            r.place == CellPlace::Parent(node),
    {
        LazyItemRef { place: CellPlace::Parent(node) }
    }

    /// The holder of the child link of the node at `node`.
    pub fn child_of(node: Item) -> (r: Self)
        ensures
            r.place == CellPlace::Child(node),
    {
        LazyItemRef { place: CellPlace::Child(node) }
    }

    /// What the cell holds now.
    pub fn get(&self, arena: &NodeArena) -> (item: LazyItem)
        ensures
            item == arena.cell(*self),
    {
        arena.read_cell(*self)
    }

    pub fn is_valid(&self, arena: &NodeArena) -> (b: bool)
        ensures
            b == (arena.cell(*self) is Valid),
    {
        arena.read_cell(*self).is_valid()
    }

    pub fn is_invalid(&self, arena: &NodeArena) -> (b: bool)
        ensures
            b == (arena.cell(*self) is Invalid),
    {
        arena.read_cell(*self).is_invalid()
    }

    pub fn get_data(&self, arena: &NodeArena) -> (data: Option<Item>)
        ensures
            data == arena.cell(*self).data(),
    {
        arena.read_cell(*self).get_data()
    }

    /// The offset that is known for the held item.
    pub fn get_offset(&self, arena: &NodeArena) -> (offset: Option<FileOffset>)
        requires
            arena.wf(),
        ensures
            offset == lazy_offset(arena@.offsets, arena.cell(*self)),
    {
        arena.read_cell(*self).get_offset(arena)
    }

    /// Puts `new_data` into `arena` and stores it in the cell, which is
    /// valid afterwards and keeps the offset and the decay counter that it
    /// carried. Every holder of the cell reads the new node from now on; no
    /// other cell changes.
    pub fn set_data(&self, new_data: MergedNode, arena: &mut NodeArena)
        requires
            old(arena).wf(),
            old(arena).has_cell(*self),
        ensures
            final(arena).wf(),
            final(arena).cell(*self) == (LazyItem::Valid {
                data: Some(old(arena)@.nodes.len() as usize),
                offset: old(arena).cell(*self).offset(),
                decay_counter: decay_of(old(arena).cell(*self)),
            }),
            final(arena)@ == old(arena)@.with_node(new_data@).with_link(
                self.place,
                final(arena).cell(*self),
            ),
            final(arena).cells@ == cells_with(
                old(arena).cells@,
                self.place,
                final(arena).cell(*self),
            ),
            forall|other: LazyItemRef|
                other != *self && old(arena).has_cell(other) ==> #[trigger] final(arena).cell(
                    other,
                ) == old(arena).cell(other),
    {
        let (offset, decay_counter) = match arena.read_cell(*self) {
            LazyItem::Valid { offset, decay_counter, .. } => (offset, decay_counter),
            LazyItem::Invalid => (None, 0),
        };
        let handle: Item = arena.insert(new_data);
        arena.write_cell(*self, LazyItem::Valid { data: Some(handle), offset, decay_counter });
    }

    /// Stores `new_offset` in the cell and keeps its node and its decay
    /// counter. The cell is invalid afterwards when it has neither a node
    /// nor an offset. Every holder of the cell reads the new offset from
    /// now on; no other cell changes.
    pub fn set_offset(&self, new_offset: Option<FileOffset>, arena: &mut NodeArena)
        requires
            old(arena).has_cell(*self),
        ensures
            final(arena).wf() == old(arena).wf(),
            final(arena).cell(*self) == lazy_of(
                old(arena).cell(*self).data(),
                new_offset,
                decay_of(old(arena).cell(*self)),
            ),
            final(arena).cell(*self).wf(),
            final(arena)@ == old(arena)@.with_link(self.place, final(arena).cell(*self)),
            final(arena).cells@ == cells_with(
                old(arena).cells@,
                self.place,
                final(arena).cell(*self),
            ),
            forall|other: LazyItemRef|
                other != *self ==> #[trigger] final(arena).cell(other) == old(arena).cell(other),
    {
        let (data, decay_counter) = match arena.read_cell(*self) {
            LazyItem::Valid { data, decay_counter, .. } => (data, decay_counter),
            LazyItem::Invalid => (None, 0),
        };
        if data.is_none() && new_offset.is_none() {
            arena.write_cell(*self, LazyItem::Invalid);
        } else {
            arena.write_cell(*self, LazyItem::Valid { data, offset: new_offset, decay_counter });
        }
    }
}

/// The neighbours of a node: lazy items with their similarity, one per
/// identity, in insertion order. A set has one owner and is not copied: the
/// set of a node stands in the arena with the node, where every reader
/// finds the latest insert.
#[derive(Debug)]
pub struct EagerLazyItemSet {
    pub items: IdentitySet<EagerLazyItem>,
}

impl View for EagerLazyItemSet {
    type V = Seq<(LazyItemId, EagerLazyItem)>;

    open spec fn view(&self) -> Seq<(LazyItemId, EagerLazyItem)> {
        self.items@
    }
}

impl EagerLazyItemSet {
    pub fn new() -> (s: Self)
        ensures
            s@ == Seq::<(LazyItemId, EagerLazyItem)>::empty(),
    {
        EagerLazyItemSet { items: IdentitySet::new() }
    }

    /// Inserts `item` under the identity that its lazy item has in `arena`.
    pub fn insert(&mut self, item: EagerLazyItem, arena: &NodeArena)
        requires
            arena.wf(),
        ensures
            final(self)@ == inserted(old(self)@, lazy_id(arena@, item.1), item),
            old(self).items.wf() ==> final(self).items.wf(),
    {
        let id = item.get_id(arena);
        self.items.insert(id, item);
    }

    /// The items in insertion order.
    pub fn iter(&self) -> (out: Vec<EagerLazyItem>)
        ensures
            out@ == self@.map_values(|e: (LazyItemId, EagerLazyItem)| e.1),
    {
        self.items.iter()
    }

    pub fn is_empty(&self) -> (b: bool)
        ensures
            b == (self@.len() == 0),
    {
        self.items.is_empty()
    }

    pub fn len(&self) -> (n: usize)
        ensures
            n == self@.len(),
    {
        self.items.len()
    }
}

/// Lazy items, one per identity, in insertion order. A set has one owner
/// and is not copied.
#[derive(Debug)]
pub struct LazyItemSet {
    pub items: IdentitySet<LazyItem>,
}

impl View for LazyItemSet {
    type V = Seq<(LazyItemId, LazyItem)>;

    open spec fn view(&self) -> Seq<(LazyItemId, LazyItem)> {
        self.items@
    }
}

impl LazyItemSet {
    pub fn new() -> (s: Self)
        ensures
            s@ == Seq::<(LazyItemId, LazyItem)>::empty(),
    {
        LazyItemSet { items: IdentitySet::new() }
    }

    /// Inserts `item` under the identity that it has in `arena`.
    pub fn insert(&mut self, item: LazyItem, arena: &NodeArena)
        requires
            arena.wf(),
        ensures
            final(self)@ == inserted(old(self)@, lazy_id(arena@, item), item),
            old(self).items.wf() ==> final(self).items.wf(),
    {
        let id = item.get_id(arena);
        self.items.insert(id, item);
    }

    /// The items in insertion order.
    pub fn iter(&self) -> (out: Vec<LazyItem>)
        ensures
            out@ == self@.map_values(|e: (LazyItemId, LazyItem)| e.1),
    {
        self.items.iter()
    }

    pub fn is_empty(&self) -> (b: bool)
        ensures
            b == (self@.len() == 0),
    {
        self.items.is_empty()
    }

    pub fn len(&self) -> (n: usize)
        ensures
            n == self@.len(),
    {
        self.items.len()
    }
}

/// Lazy items under keys, one per key, in insertion order. A map has one
/// owner and is not copied: the versions of a node stand in the arena with
/// the node.
#[derive(Debug)]
pub struct LazyItemMap {
    pub items: IdentityMap<LazyItem>,
}

impl View for LazyItemMap {
    type V = Seq<(KeyView, LazyItem)>;

    open spec fn view(&self) -> Seq<(KeyView, LazyItem)> {
        self.items@
    }
}

impl LazyItemMap {
    pub fn new() -> (m: Self)
        ensures
            m@ == Seq::<(KeyView, LazyItem)>::empty(),
    {
        LazyItemMap { items: IdentityMap::new() }
    }

    /// Puts `value` under `key`; a value held under `key` is replaced.
    pub fn insert(&mut self, key: IdentityMapKey, value: LazyItem)
        ensures
            final(self)@ == inserted(old(self)@, key@, value),
            old(self).items.wf() ==> final(self).items.wf(),
    {
        self.items.insert(key, value);
    }

    pub fn is_empty(&self) -> (b: bool)
        ensures
            b == (self@.len() == 0),
    {
        self.items.is_empty()
    }

    pub fn len(&self) -> (n: usize)
        ensures
            n == self@.len(),
    {
        self.items.len()
    }
}

} // verus!
