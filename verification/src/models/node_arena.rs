//! The arena that owns the nodes and the lazy cells of a graph.
//!
//! A node is named by its place in the arena. Beside each node the arena
//! records the offset at which the node was written, once it was. A lazy
//! cell is named by its place too: it stands on its own, or it is the
//! parent or the child link of a node. Whoever holds the name of a node or
//! of a cell reads what was stored there last.

use crate::models::identity_collections::{inserted, IdentityMapKey, KeyView};
use crate::models::lazy_load::{CellPlace, EagerLazyItem, LazyItem, LazyItemId, LazyItemRef};
use crate::models::types::{
    node_identity, node_views, CosineSimilarity, FileOffset, Item, MergedNode, MergedNodeView,
};
use vstd::prelude::*;

verus! {

pub struct NodeArena {
    pub nodes: Vec<MergedNode>,
    pub offsets: Vec<Option<FileOffset>>,
    /// The lazy cells that stand on their own, each named by its place.
    pub cells: Vec<LazyItem>,
}

/// An arena as contracts see it.
pub struct ArenaState {
    pub nodes: Seq<MergedNodeView>,
    pub offsets: Seq<Option<FileOffset>>,
}

impl ArenaState {
    /// The arena after `node` was put at its end, not yet written.
    pub open spec fn with_node(self, node: MergedNodeView) -> ArenaState {
        ArenaState { nodes: self.nodes.push(node), offsets: self.offsets.push(None) }
    }

    /// The arena after `item` was stored in the link of a node at `place`.
    /// A place that is no link of a node of the arena leaves it as it is.
    pub open spec fn with_link(self, place: CellPlace, item: LazyItem) -> ArenaState {
        match place {
            CellPlace::Parent(node) => if node < self.nodes.len() {
                ArenaState {
                    nodes: self.nodes.update(
                        node as int,
                        MergedNodeView { parent: item, ..self.nodes[node as int] },
                    ),
                    offsets: self.offsets,
                }
            } else {
                self
            },
            CellPlace::Child(node) => if node < self.nodes.len() {
                ArenaState {
                    nodes: self.nodes.update(
                        node as int,
                        MergedNodeView { child: item, ..self.nodes[node as int] },
                    ),
                    offsets: self.offsets,
                }
            } else {
                self
            },
            CellPlace::Own(_) => self,
        }
    }
}

/// The cells on their own after `item` was stored at `place`. A place that
/// is none of them leaves them as they are.
pub open spec fn cells_with(cells: Seq<LazyItem>, place: CellPlace, item: LazyItem) -> Seq<
    LazyItem,
> {
    match place {
        CellPlace::Own(cell) => if cell < cells.len() {
            cells.update(cell as int, item)
        } else {
            cells
        },
        _ => cells,
    }
}

/// The offset of the node of `item`: the one that the item carries, else the
/// one recorded for its node.
pub open spec fn lazy_offset(offsets: Seq<Option<FileOffset>>, item: LazyItem) -> Option<
    FileOffset,
> {
    match item {
        LazyItem::Valid { data, offset, .. } => {
            if offset is Some {
                offset
            } else if data is Some && data.unwrap() < offsets.len() {
                offsets[data.unwrap() as int]
            } else {
                None
            }
        },
        LazyItem::Invalid => None,
    }
}

/// The identity of `item`: its offset where one is known, else the identity
/// of its node in memory. An item without either has the identity of the
/// absent offset.
pub open spec fn lazy_id(arena: ArenaState, item: LazyItem) -> LazyItemId {
    match lazy_offset(arena.offsets, item) {
        Some(o) => LazyItemId::Persist(o),
        None => {
            if item.data() is Some && item.data().unwrap() < arena.nodes.len() {
                LazyItemId::Memory(node_identity(arena.nodes[item.data().unwrap() as int].prop))
            } else {
                LazyItemId::Persist(u32::MAX)
            }
        },
    }
}

impl View for NodeArena {
    type V = ArenaState;

    open spec fn view(&self) -> ArenaState {
        ArenaState { nodes: node_views(self.nodes@), offsets: self.offsets@ }
    }
}

impl NodeArena {
    /// Every node has a place for its offset.
    pub open spec fn wf(&self) -> bool {
        self.nodes@.len() == self.offsets@.len()
    }

    /// Whether `holder` names a cell of this arena.
    pub open spec fn has_cell(&self, holder: LazyItemRef) -> bool {
        match holder.place {
            CellPlace::Own(cell) => cell < self.cells@.len(),
            CellPlace::Parent(node) => node < self@.nodes.len(),
            CellPlace::Child(node) => node < self@.nodes.len(),
        }
    }

    /// What the cell named by `holder` holds. A holder that names no cell
    /// of this arena reads as invalid.
    pub open spec fn cell(&self, holder: LazyItemRef) -> LazyItem {
        if !self.has_cell(holder) {
            LazyItem::Invalid
        } else {
            match holder.place {
                CellPlace::Own(cell) => self.cells@[cell as int],
                CellPlace::Parent(node) => self@.nodes[node as int].parent,
                CellPlace::Child(node) => self@.nodes[node as int].child,
            }
        }
    }

    pub fn new() -> (arena: Self)
        ensures
            arena.wf(),
            arena@.nodes == Seq::<MergedNodeView>::empty(),
            arena@.offsets == Seq::<Option<FileOffset>>::empty(),
            arena.cells@ == Seq::<LazyItem>::empty(),
    {
        let arena = NodeArena { nodes: Vec::new(), offsets: Vec::new(), cells: Vec::new() };
        assert(arena@.nodes =~= Seq::<MergedNodeView>::empty());
        arena
    }

    /// Puts `node` at the end of the arena and returns its handle.
    pub fn insert(&mut self, node: MergedNode) -> (item: Item)
        requires
            old(self).wf(),
        ensures
            final(self).wf(),
            final(self).cells@ == old(self).cells@,
            item == old(self)@.nodes.len(),
            final(self)@ == old(self)@.with_node(node@),
    {
        let item: Item = self.nodes.len();
        self.nodes.push(node);
        self.offsets.push(None);
        assert(self@.nodes =~= old(self)@.nodes.push(node@));
        item
    }

    /// Puts `node`, which lies at `offset` in the file, at the end of the
    /// arena and returns its handle.
    pub fn insert_persisted(&mut self, node: MergedNode, offset: FileOffset) -> (item: Item)
        requires
            old(self).wf(),
        ensures
            final(self).wf(),
            final(self).cells@ == old(self).cells@,
            item == old(self)@.nodes.len(),
            final(self)@.nodes == old(self)@.nodes.push(node@),
            final(self)@.offsets == old(self)@.offsets.push(Some(offset)),
    {
        let item: Item = self.nodes.len();
        self.nodes.push(node);
        self.offsets.push(Some(offset));
        assert(self@.nodes =~= old(self)@.nodes.push(node@));
        item
    }

    pub fn len(&self) -> (n: usize)
        ensures
            n == self@.nodes.len(),
    {
        self.nodes.len()
    }

    /// The node at `item`.
    pub fn get(&self, item: Item) -> (node: &MergedNode)
        requires
            item < self@.nodes.len(),
        ensures
            node@ == self@.nodes[item as int],
    {
        &self.nodes[item]
    }

    /// The node at `item`, to be changed in place.
    pub fn get_mut(&mut self, item: Item) -> (node: &mut MergedNode)
        requires
            item < old(self)@.nodes.len(),
        ensures
            node@ == old(self)@.nodes[item as int],
            final(self)@.nodes == old(self)@.nodes.update(item as int, final(node)@),
            final(self)@.offsets == old(self)@.offsets,
            final(self).cells@ == old(self).cells@,
    {
        &mut self.nodes[item]
    }

    /// The offset at which the node at `item` was written, if it was.
    pub fn offset_of(&self, item: Item) -> (offset: Option<FileOffset>)
        requires
            self.wf(),
            item < self@.nodes.len(),
        ensures
            offset == self@.offsets[item as int],
    {
        self.offsets[item]
    }

    /// Records `offset` as the offset of the node at `item`.
    pub fn set_offset_of(&mut self, item: Item, offset: Option<FileOffset>)
        requires
            old(self).wf(),
            item < old(self)@.nodes.len(),
        ensures
            final(self).wf(),
            final(self).cells@ == old(self).cells@,
            final(self)@.nodes == old(self)@.nodes,
            final(self)@.offsets == old(self)@.offsets.update(item as int, offset),
    {
        self.offsets[item] = offset;
    }

    /// The offset of the node of `item`.
    pub fn lazy_offset(&self, item: &LazyItem) -> (offset: Option<FileOffset>)
        requires
            self.wf(),
        ensures
            offset == lazy_offset(self@.offsets, *item),
    {
        match item {
            LazyItem::Valid { data, offset, .. } => {
                if offset.is_some() {
                    return *offset;
                }
                if let Some(handle) = data {
                    if *handle < self.offsets.len() {
                        return self.offsets[*handle];
                    }
                }
                None
            },
            LazyItem::Invalid => None,
        }
    }

    /// Makes a cell on its own that holds `item` and returns its holder.
    pub fn new_cell(&mut self, item: LazyItem) -> (holder: LazyItemRef)
        ensures
            final(self)@ == old(self)@,
            final(self).wf() == old(self).wf(),
            final(self).cells@ == old(self).cells@.push(item),
            holder.place matches CellPlace::Own(cell) && cell == old(self).cells@.len(),
            final(self).cell(holder) == item,
    {
        let cell: usize = self.cells.len();
        self.cells.push(item);
        LazyItemRef { place: CellPlace::Own(cell) }
    }

    /// Reads the cell named by `holder`.
    pub fn read_cell(&self, holder: LazyItemRef) -> (item: LazyItem)
        ensures
            item == self.cell(holder),
    {
        match holder.place {
            CellPlace::Own(cell) => {
                if cell < self.cells.len() {
                    self.cells[cell]
                } else {
                    LazyItem::Invalid
                }
            },
            CellPlace::Parent(node) => {
                if node < self.nodes.len() {
                    self.nodes[node].parent
                } else {
                    LazyItem::Invalid
                }
            },
            CellPlace::Child(node) => {
                if node < self.nodes.len() {
                    self.nodes[node].child
                } else {
                    LazyItem::Invalid
                }
            },
        }
    }

    /// Stores `item` in the cell named by `holder`: every holder of that
    /// cell reads `item` from now on, and no other cell changes.
    pub fn write_cell(&mut self, holder: LazyItemRef, item: LazyItem)
        requires
            old(self).has_cell(holder),
        ensures
            final(self).wf() == old(self).wf(),
            final(self)@ == old(self)@.with_link(holder.place, item),
            final(self).cells@ == cells_with(old(self).cells@, holder.place, item),
            final(self).cell(holder) == item,
            forall|other: LazyItemRef|
                other != holder ==> #[trigger] final(self).cell(other) == old(self).cell(other),
    {
        match holder.place {
            CellPlace::Own(cell) => {
                self.cells[cell] = item;
            },
            CellPlace::Parent(node) => {
                self.nodes[node].parent = item;
                assert(self@.nodes =~= old(self)@.with_link(holder.place, item).nodes);
            },
            CellPlace::Child(node) => {
                self.nodes[node].child = item;
                assert(self@.nodes =~= old(self)@.with_link(holder.place, item).nodes);
            },
        }
    }

    /// Adds an edge from the node at `node` to `neighbor`.
    pub fn add_ready_neighbor(
        &mut self,
        node: Item,
        neighbor: LazyItem,
        cosine_similarity: CosineSimilarity,
    )
        requires
            old(self).wf(),
            node < old(self)@.nodes.len(),
        ensures
            final(self).wf(),
            final(self).cells@ == old(self).cells@,
            final(self)@.offsets == old(self)@.offsets,
            final(self)@.nodes == old(self)@.nodes.update(
                node as int,
                MergedNodeView {
                    neighbors: inserted(
                        old(self)@.nodes[node as int].neighbors,
                        lazy_id(old(self)@, neighbor),
                        EagerLazyItem(cosine_similarity, neighbor),
                    ),
                    ..old(self)@.nodes[node as int]
                },
            ),
    {
        let id = neighbor.get_id(self);
        self.nodes[node].neighbors.items.insert(id, EagerLazyItem(cosine_similarity, neighbor));
        assert(self@.nodes =~= old(self)@.nodes.update(
            node as int,
            MergedNodeView {
                neighbors: inserted(
                    old(self)@.nodes[node as int].neighbors,
                    lazy_id(old(self)@, neighbor),
                    EagerLazyItem(cosine_similarity, neighbor),
                ),
                ..old(self)@.nodes[node as int]
            },
        ));
    }

    /// Records the node at `version` as a version of the node at `node`,
    /// under the key made of its version id.
    pub fn add_version(&mut self, node: Item, version: Item)
        requires
            old(self).wf(),
            node < old(self)@.nodes.len(),
            version < old(self)@.nodes.len(),
        ensures
            final(self).wf(),
            final(self).cells@ == old(self).cells@,
            final(self)@.offsets == old(self)@.offsets,
            final(self)@.nodes == old(self)@.nodes.update(
                node as int,
                MergedNodeView {
                    versions: inserted(
                        old(self)@.nodes[node as int].versions,
                        KeyView::Int(old(self)@.nodes[version as int].version_id as u32),
                        LazyItem::Valid { data: Some(version), offset: None, decay_counter: 0 },
                    ),
                    ..old(self)@.nodes[node as int]
                },
            ),
    {
        let key = IdentityMapKey::Int(
            self.nodes[version].version_id as u32,
        );
        self.nodes[node].versions.items.insert(key, LazyItem::from_item(version));
        assert(self@.nodes =~= old(self)@.nodes.update(
            node as int,
            MergedNodeView {
                versions: inserted(
                    old(self)@.nodes[node as int].versions,
                    KeyView::Int(old(self)@.nodes[version as int].version_id as u32),
                    LazyItem::Valid { data: Some(version), offset: None, decay_counter: 0 },
                ),
                ..old(self)@.nodes[node as int]
            },
        ));
    }
}

} // verus!
