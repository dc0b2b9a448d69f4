//! The graph's data: vector ids, node properties and the merged node.

use crate::models::endian::{append_bytes, le32, u32_to_le};
use crate::models::identity_collections::{inserted, IdentityMapKey, KeyView};
use crate::models::lazy_load::{
    EagerLazyItem, EagerLazyItemSet, LazyItem, LazyItemId, LazyItemMap, SyncPersist,
};
use crate::models::node_arena::{lazy_id, ArenaState, NodeArena};
use crate::models::text::{decimal, push_decimal, push_signed_decimal, signed_decimal};
use std::collections::hash_map::DefaultHasher;
use std::hash::Hasher;
use std::sync::Arc;
use vstd::prelude::*;
use vstd::std_specs::hash::DefaultHasherAdditionalSpecFns;
use vstd::string::StringExecFns;
use vstd::utf8::encode_utf8;

verus! {

pub type HNSWLevel = u8;

pub type FileOffset = u32;

pub type BytesToRead = u32;

pub type VersionId = u16;

/// A cosine similarity, held as the bit pattern of its 32-bit float.
pub type CosineSimilarity = u32;

/// The handle of a node: its place in a `NodeArena`.
pub type Item = usize;

/// Where a node's property lies in the property file: offset and length.
pub type PropPersistRef = (FileOffset, BytesToRead);

pub type NodeFileRef = FileOffset;

pub type SizeBytes = u32;

/// The identity of an embedding.
#[derive(Debug, Clone, PartialEq, Eq, Hash)]
pub enum VectorId {
    Str(String),
    Int(i32),
}

/// A vector id as contracts see it.
pub enum VectorIdView {
    Str(Seq<char>),
    Int(i32),
}

impl View for VectorId {
    type V = VectorIdView;

    open spec fn view(&self) -> VectorIdView {
        match self {
            VectorId::Str(s) => VectorIdView::Str(s@),
            VectorId::Int(i) => VectorIdView::Int(*i),
        }
    }
}

impl VectorId {
    /// The id as text: a string as it is, a number in decimal.
    pub open spec fn text(self) -> Seq<char> {
        match self {
            VectorId::Str(s) => s@,
            VectorId::Int(i) => signed_decimal(i as int),
        }
    }

    /// Whether two ids are the same id.
    pub fn same_as(&self, other: &VectorId) -> (b: bool)
        ensures
            b == (self@ == other@),
    {
        match (self, other) {
            (VectorId::Str(a), VectorId::Str(b)) => *a == *b,
            (VectorId::Int(a), VectorId::Int(b)) => *a == *b,
            _ => false,
        }
    }

    /// A copy of the id.
    pub fn duplicate(&self) -> (id: VectorId)
        ensures
            id@ == self@,
    {
        match self {
            VectorId::Str(s) => VectorId::Str(s.clone()),
            VectorId::Int(i) => VectorId::Int(*i),
        }
    }

    /// The id as text.
    pub fn to_string(&self) -> (text: String)
        ensures
            text@ == self.text(),
    {
        let mut text = String::new();
        match self {
            VectorId::Str(s) => {
                text.append(s.as_str());
            },
            VectorId::Int(i) => {
                push_signed_decimal(&mut text, *i as i64);
            },
        }
        assert(text@ =~= self.text());
        text
    }
}

/// A quantized vector.
#[derive(Debug, Clone)]
#[allow(inconsistent_fields)]
pub enum Storage {
    UnsignedByte { mag: u32, quant_vec: Vec<u8> },
    SubByte { mag: u32, quant_vec: Vec<Vec<u8>>, resolution: u8 },
}

/// A quantized vector as the quantizers hand it out.
#[derive(Debug, Clone)]
#[allow(inconsistent_fields)]
pub enum VectorQt {
    UnsignedByte { mag: u32, quant_vec: Vec<u8> },
    SubByte { mag: u32, quant_vec: Vec<Vec<u8>>, resolution: u8 },
}

/// The property of a node: the vector, its id, and where it was written.
#[derive(Debug, Clone)]
pub struct NodeProp {
    pub id: VectorId,
    pub value: Arc<Storage>,
    pub location: Option<PropPersistRef>,
}

/// A node's property, in memory or still in the property file.
#[derive(Debug)]
pub enum PropState {
    Ready(Arc<NodeProp>),
    Pending(PropPersistRef),
}

#[derive(Debug)]
pub enum DistanceMetric {
    Cosine,
    Euclidean,
    Hamming,
    DotProduct,
}

#[derive(Debug, Clone)]
pub struct Centroid {
    pub number_of_centroids: u16,
    pub centroids: Vec<u16>,
}

#[derive(Debug, Clone)]
pub struct ProductQuantization {
    pub centroids: Option<Centroid>,
}

#[derive(Debug)]
pub enum QuantizationMetric {
    Scalar,
    Product(ProductQuantization),
}

#[derive(Debug, Clone)]
pub struct VectorEmbedding {
    pub raw_vec: Arc<Storage>,
    pub hash_vec: VectorId,
}

/// An edge to a neighbouring node.
#[derive(Clone, Copy, Debug)]
pub struct Neighbour {
    pub node: LazyItem,
    pub cosine_similarity: CosineSimilarity,
}

impl Neighbour {
    /// The identity of the node at the end of the edge.
    pub fn get_id(&self, arena: &NodeArena) -> (id: LazyItemId)
        requires
            arena.wf(),
        ensures
            id == lazy_id(arena@, self.node),
    {
        self.node.get_id(arena)
    }
}

/// The bytes that a property is hashed from: a tag, then the vector id of a
/// resident property, or the location of one that is still on disk.
pub open spec fn identity_bytes(prop: PropState) -> Seq<u8> {
    match prop {
        PropState::Ready(node_prop) => match node_prop.id {
            VectorId::Str(s) => seq![0u8] + encode_utf8(s@),
            VectorId::Int(i) => if i >= 0 {
                seq![1u8] + le32(i as u32)
            } else {
                seq![2u8] + le32((-i) as u32)
            },
        },
        PropState::Pending(location) => seq![3u8] + le32(location.0) + le32(location.1),
    }
}

/// The identity of a node: the hash of its property.
pub open spec fn node_identity(prop: PropState) -> u64 {
    DefaultHasher::spec_finish(seq![identity_bytes(prop)])
}

/// Where `prop` lies in the property file, if that is known.
pub open spec fn prop_location(prop: PropState) -> Option<PropPersistRef> {
    match prop {
        PropState::Ready(node_prop) => node_prop.location,
        PropState::Pending(location) => Some(location),
    }
}

/// A node of the graph at one level.
#[derive(Debug)]
pub struct MergedNode {
    pub version_id: VersionId,
    pub hnsw_level: HNSWLevel,
    pub prop: PropState,
    pub neighbors: EagerLazyItemSet,
    pub parent: LazyItem,
    pub child: LazyItem,
    pub versions: LazyItemMap,
    pub persist_flag: bool,
}

/// A node as contracts see it.
pub struct MergedNodeView {
    pub version_id: VersionId,
    pub hnsw_level: HNSWLevel,
    pub prop: PropState,
    pub neighbors: Seq<(LazyItemId, EagerLazyItem)>,
    pub parent: LazyItem,
    pub child: LazyItem,
    pub versions: Seq<(KeyView, LazyItem)>,
    pub persist_flag: bool,
}

impl View for MergedNode {
    type V = MergedNodeView;

    open spec fn view(&self) -> MergedNodeView {
        MergedNodeView {
            version_id: self.version_id,
            hnsw_level: self.hnsw_level,
            prop: self.prop,
            neighbors: self.neighbors@,
            parent: self.parent,
            child: self.child,
            versions: self.versions@,
            persist_flag: self.persist_flag,
        }
    }
}

/// `Arc::clone`: another handle to the value that `a` points to.
#[verifier::external_body]
pub(crate) fn share<T>(a: &Arc<T>) -> (r: Arc<T>)
    ensures
        r == *a,
{
    a.clone()
}

/// The nodes of an arena as contracts see them.
pub open spec fn node_views(nodes: Seq<MergedNode>) -> Seq<MergedNodeView> {
    nodes.map_values(|n: MergedNode| n@)
}

impl MergedNode {
    /// A node without edges, whose property is pending at `(0, 0)` and
    /// which is yet to be written.
    pub fn new(version_id: VersionId, hnsw_level: HNSWLevel) -> (node: Self)
        ensures
            node@ == (MergedNodeView {
                version_id,
                hnsw_level,
                prop: PropState::Pending((0, 0)),
                neighbors: Seq::empty(),
                parent: LazyItem::Invalid,
                child: LazyItem::Invalid,
                versions: Seq::empty(),
                persist_flag: true,
            }),
    {
        MergedNode {
            version_id,
            hnsw_level,
            prop: PropState::Pending((0, 0)),
            neighbors: EagerLazyItemSet::new(),
            parent: LazyItem::Invalid,
            child: LazyItem::Invalid,
            versions: LazyItemMap::new(),
            persist_flag: true,
        }
    }

    /// The hash of the node's property.
    pub fn get_id(&self) -> (id: u64)
        ensures
            id == node_identity(self.prop),
    {
        let mut bytes: Vec<u8> = Vec::new();
        match &self.prop {
            PropState::Ready(node_prop) => match &node_prop.id {
                VectorId::Str(s) => {
                    bytes.push(0u8);
                    append_bytes(&mut bytes, s.as_str().as_bytes());
                },
                VectorId::Int(i) => {
                    if *i >= 0 {
                        bytes.push(1u8);
                        let encoded = u32_to_le(*i as u32);
                        append_bytes(&mut bytes, encoded.as_slice());
                    } else {
                        bytes.push(2u8);
                        let magnitude: i64 = -(*i as i64);
                        let encoded = u32_to_le(magnitude as u32);
                        append_bytes(&mut bytes, encoded.as_slice());
                    }
                },
            },
            PropState::Pending(location) => {
                bytes.push(3u8);
                let first = u32_to_le(location.0);
                append_bytes(&mut bytes, first.as_slice());
                let second = u32_to_le(location.1);
                append_bytes(&mut bytes, second.as_slice());
            },
        }
        assert(bytes@ =~= identity_bytes(self.prop));
        let mut hasher = DefaultHasher::new();
        hasher.write(bytes.as_slice());
        hasher.finish()
    }

    /// Adds an edge to `neighbor`, under the identity that `neighbor` has in
    /// `arena`; an edge held under that identity is replaced.
    pub fn add_ready_neighbor(
        &mut self,
        neighbor: LazyItem,
        cosine_similarity: CosineSimilarity,
        arena: &NodeArena,
    )
        requires
            arena.wf(),
        ensures
            final(self)@ == (MergedNodeView {
                neighbors: inserted(
                    old(self)@.neighbors,
                    lazy_id(arena@, neighbor),
                    EagerLazyItem(cosine_similarity, neighbor),
                ),
                ..old(self)@
            }),
    {
        self.neighbors.insert(EagerLazyItem(cosine_similarity, neighbor), arena);
    }

    /// The node after the edges of `list[0..n]` were added in order.
    pub open spec fn with_neighbors(
        node: MergedNodeView,
        arena: ArenaState,
        list: Seq<(LazyItem, CosineSimilarity)>,
        n: int,
    ) -> MergedNodeView
        decreases n,
    {
        if n <= 0 {
            node
        } else {
            let before = Self::with_neighbors(node, arena, list, n - 1);
            MergedNodeView {
                neighbors: inserted(
                    before.neighbors,
                    lazy_id(arena, list[n - 1].0),
                    EagerLazyItem(list[n - 1].1, list[n - 1].0),
                ),
                ..before
            }
        }
    }

    /// Adds an edge for each pair of `neighbors_list`, in order.
    pub fn add_ready_neighbors(
        &mut self,
        neighbors_list: Vec<(LazyItem, CosineSimilarity)>,
        arena: &NodeArena,
    )
        requires
            arena.wf(),
        ensures
            final(self)@ == Self::with_neighbors(
                old(self)@,
                arena@,
                neighbors_list@,
                neighbors_list@.len() as int,
            ),
    {
        let n: usize = neighbors_list.len();
        let mut i: usize = 0;
        while i < n
            invariant
                i <= n,
                n == neighbors_list@.len(),
                arena.wf(),
                self@ == Self::with_neighbors(old(self)@, arena@, neighbors_list@, i as int),
            decreases n - i,
        {
            let pair: (LazyItem, CosineSimilarity) = neighbors_list[i];
            self.add_ready_neighbor(pair.0, pair.1, arena);
            i = i + 1;
        }
    }

    pub fn set_parent(&mut self, parent: LazyItem)
        ensures
            final(self)@ == (MergedNodeView { parent, ..old(self)@ }),
    {
        self.parent = parent;
    }

    pub fn set_child(&mut self, child: LazyItem)
        ensures
            final(self)@ == (MergedNodeView { child, ..old(self)@ }),
    {
        self.child = child;
    }

    pub fn get_neighbors(&self) -> (set: &EagerLazyItemSet)
        ensures
            set@ == self@.neighbors,
    {
        &self.neighbors
    }

    /// Records the node `version` of `arena` as a version of this node,
    /// under the key made of that node's version id; a version held under
    /// that key is replaced.
    pub fn add_version(&mut self, version: Item, arena: &NodeArena)
        requires
            version < arena@.nodes.len(),
        ensures
            final(self)@ == (MergedNodeView {
                versions: inserted(
                    old(self)@.versions,
                    KeyView::Int(arena@.nodes[version as int].version_id as u32),
                    LazyItem::Valid { data: Some(version), offset: None, decay_counter: 0 },
                ),
                ..old(self)@
            }),
    {
        let lazy_item = LazyItem::from_item(version);
        let key = IdentityMapKey::Int(arena.get(version).version_id as u32);
        self.versions.insert(key, lazy_item);
    }

    pub fn get_versions(&self) -> (map: &LazyItemMap)
        ensures
            map@ == self@.versions,
    {
        &self.versions
    }

    /// What the parent link holds. The holder of the link of a node that
    /// stands in an arena is `LazyItemRef::parent_of`.
    pub fn get_parent(&self) -> (parent: LazyItem)
        ensures
            parent == self@.parent,
    {
        self.parent
    }

    /// What the child link holds. The holder of the link of a node that
    /// stands in an arena is `LazyItemRef::child_of`.
    pub fn get_child(&self) -> (child: LazyItem)
        ensures
            child == self@.child,
    {
        self.child
    }

    pub fn set_prop_location(&mut self, new_location: PropPersistRef)
        ensures
            final(self)@ == (MergedNodeView {
                prop: PropState::Pending(new_location),
                ..old(self)@
            }),
    {
        self.prop = PropState::Pending(new_location);
    }

    pub fn get_prop_location(&self) -> (location: Option<PropPersistRef>)
        ensures
            location == prop_location(self@.prop),
    {
        match &self.prop {
            PropState::Ready(node_prop) => node_prop.location,
            PropState::Pending(location) => Some(*location),
        }
    }

    pub fn get_prop(&self) -> (prop: &PropState)
        ensures
            *prop == self@.prop,
    {
        &self.prop
    }

    pub fn set_prop_pending(&mut self, prop_ref: PropPersistRef)
        ensures
            final(self)@ == (MergedNodeView { prop: PropState::Pending(prop_ref), ..old(self)@ }),
    {
        self.prop = PropState::Pending(prop_ref);
    }

    pub fn set_prop_ready(&mut self, node_prop: Arc<NodeProp>)
        ensures
            final(self)@ == (MergedNodeView { prop: PropState::Ready(node_prop), ..old(self)@ }),
    {
        self.prop = PropState::Ready(node_prop);
    }
}

/// `Valid` or `Invalid`.
pub open spec fn validity_text(valid: bool) -> Seq<char> {
    if valid {
        "Valid"@
    } else {
        "Invalid"@
    }
}

/// `true` or `false`.
pub open spec fn bool_text(b: bool) -> Seq<char> {
    if b {
        "true"@
    } else {
        "false"@
    }
}

/// The line that describes a property.
pub open spec fn prop_text(prop: PropState) -> Seq<char> {
    match prop {
        PropState::Ready(node_prop) => "Ready { id: "@ + node_prop.id.text() + " }\n"@,
        PropState::Pending(_) => "Pending\n"@,
    }
}

/// The text that describes a node: one line for each of its fields.
pub open spec fn node_text(node: MergedNodeView) -> Seq<char> {
    "MergedNode {\n"@ + "  version_id: "@ + decimal(node.version_id as nat) + ",\n"@
        + "  hnsw_level: "@ + decimal(node.hnsw_level as nat) + ",\n"@ + "  prop: "@ + prop_text(
        node.prop,
    ) + "  neighbors: "@ + decimal(node.neighbors.len()) + " items,\n"@ + "  parent: "@
        + validity_text(node.parent is Valid) + "\n"@ + "  child: "@ + validity_text(
        node.child is Valid,
    ) + "\n"@ + "  versions: "@ + decimal(node.versions.len()) + " items,\n"@
        + "  persist_flag: "@ + bool_text(node.persist_flag) + "\n"@ + "}"@
}

impl MergedNode {
    /// The text that describes the node.
    pub fn to_string(&self) -> (text: String)
        ensures
            text@ == node_text(self@),
    {
        let mut text = String::new();
        text.append("MergedNode {\n");
        text.append("  version_id: ");
        push_decimal(&mut text, self.version_id as u64);
        text.append(",\n");
        text.append("  hnsw_level: ");
        push_decimal(&mut text, self.hnsw_level as u64);
        text.append(",\n");
        text.append("  prop: ");
        match &self.prop {
            PropState::Ready(node_prop) => {
                text.append("Ready { id: ");
                let id = node_prop.id.to_string();
                text.append(id.as_str());
                text.append(" }\n");
            },
            PropState::Pending(_) => {
                text.append("Pending\n");
            },
        }
        let ghost through_prop = text@;
        assert(through_prop =~= "MergedNode {\n"@ + "  version_id: "@ + decimal(
            self@.version_id as nat,
        ) + ",\n"@ + "  hnsw_level: "@ + decimal(self@.hnsw_level as nat) + ",\n"@ + "  prop: "@
            + prop_text(self@.prop));
        text.append("  neighbors: ");
        push_decimal(&mut text, self.neighbors.len() as u64);
        text.append(" items,\n");
        text.append("  parent: ");
        if self.parent.is_valid() {
            text.append("Valid");
        } else {
            text.append("Invalid");
        }
        text.append("\n");
        text.append("  child: ");
        if self.child.is_valid() {
            text.append("Valid");
        } else {
            text.append("Invalid");
        }
        text.append("\n");
        text.append("  versions: ");
        push_decimal(&mut text, self.versions.len() as u64);
        text.append(" items,\n");
        text.append("  persist_flag: ");
        if self.persist_flag {
            text.append("true");
        } else {
            text.append("false");
        }
        text.append("\n");
        text.append("}");
        assert(text@ =~= node_text(self@));
        text
    }
}

impl SyncPersist for MergedNode {
    open spec fn persistence(&self) -> bool {
        self.persist_flag
    }

    fn set_persistence(&mut self, flag: bool)
        ensures
            final(self)@ == (MergedNodeView { persist_flag: flag, ..old(self)@ }),
    {
        self.persist_flag = flag;
    }

    fn needs_persistence(&self) -> (flag: bool) {
        self.persist_flag
    }
}

} // verus!
