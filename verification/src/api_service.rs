//! What the store's entry points decide.
//!
//! The functions here take what was read and say what is to be written.
//! Opening files, the key-value store and the quantizers are the caller's.

use crate::models::common::{LoadError, StoreError, WaCustomError};
use crate::models::custom_buffered_writer::{CustomBufferedWriter, MAX_FILE_LEN};
use crate::models::endian::{read32, read_u32_at};
use crate::models::file_persist::{nodes_layout, persist_nodes};
use crate::models::lazy_load::{CellPlace, LazyItem, LazyItemRef};
use crate::models::node_arena::NodeArena;
use crate::models::types::{
    share, FileOffset, Item, MergedNode, MergedNodeView, NodeProp, PropState,
};
use crate::models::versioning::{index_file_name, index_file_text, VersionHash};
use std::sync::Arc;
use vstd::prelude::*;

verus! {

/// Figures over a set of values.
#[derive(Debug, Clone, Copy, PartialEq, Eq, Structural)]
pub struct Statistics {
    pub average: i32,
    pub minimum: i32,
    pub maximum: i32,
}

/// No statistics are kept yet: the result is always `None`.
pub fn calculate_statistics(values: &[i32]) -> (stats: Option<Statistics>)
    ensures
        stats is None,
{
    None
}

/// The options of the write pipeline.
#[derive(Debug, Clone, Copy, PartialEq, Eq, Structural)]
pub struct Config {
    /// The number of embeddings without an index from which on an upload
    /// indexes them.
    pub threshold: u32,
    /// The number of embeddings that one pass takes.
    pub batch_size: u32,
}

/// A store needs a name and vectors of at least one dimension.
pub fn validate_store_params(name: &str, size: usize) -> (r: Result<(), WaCustomError>)
    ensures
        r is Ok <==> name@.len() > 0 && size > 0,
        r matches Err(e) ==> e is InvalidParams,
{
    if name.is_empty() || size == 0 {
        return Err(WaCustomError::InvalidParams);
    }
    Ok(())
}

/// The number of 32-bit words that a vector of `size` dimensions fills.
pub fn quant_dim(size: usize) -> (words: usize)
    ensures
        words == size / 32,
{
    size / 32
}

/// The root node at `level` of a chain of root nodes that starts at place
/// `first` of the arena and goes up to `max_level`: the node below is its
/// parent and the node above is its child.
pub open spec fn root_node(level: int, first: int, max_level: int, prop: Arc<NodeProp>)
    -> MergedNodeView {
    MergedNodeView {
        version_id: 0,
        hnsw_level: level as u8,
        prop: PropState::Ready(prop),
        neighbors: Seq::empty(),
        parent: if level == 0 {
            LazyItem::Invalid
        } else {
            LazyItem::Valid {
                data: Some((first + level - 1) as usize),
                offset: None,
                decay_counter: 0,
            }
        },
        child: if level == max_level {
            LazyItem::Invalid
        } else {
            LazyItem::Valid {
                data: Some((first + level + 1) as usize),
                offset: None,
                decay_counter: 0,
            }
        },
        versions: Seq::empty(),
        persist_flag: true,
    }
}

/// The chain of `count` root nodes.
pub open spec fn root_chain(count: int, first: int, prop: Arc<NodeProp>) -> Seq<MergedNodeView> {
    Seq::new(count as nat, |level: int| root_node(level, first, count - 1, prop))
}

/// Puts one root node for each level from 0 to `max_cache_level` at the
/// end of the arena, linked into a chain, and returns their handles.
pub fn build_root_chain(
    arena: &mut NodeArena,
    max_cache_level: u8,
    prop: &Arc<NodeProp>,
) -> (levels: Vec<Item>)
    requires
        old(arena).wf(),
        old(arena)@.nodes.len() + max_cache_level + 1 <= usize::MAX,
    ensures
        final(arena).wf(),
        final(arena).cells@ == old(arena).cells@,
        levels@ == Seq::new(
            (max_cache_level + 1) as nat,
            |level: int| (old(arena)@.nodes.len() + level) as usize,
        ),
        final(arena)@.nodes == old(arena)@.nodes + root_chain(
            max_cache_level + 1,
            old(arena)@.nodes.len() as int,
            *prop,
        ),
        final(arena)@.offsets == old(arena)@.offsets + Seq::new(
            (max_cache_level + 1) as nat,
            |level: int| None::<FileOffset>,
        ),
{
    let first: usize = arena.len();
    let count: usize = max_cache_level as usize + 1;
    let mut levels: Vec<Item> = Vec::new();
    let mut level: usize = 0;
    proof {
        assert(arena@.nodes =~= old(arena)@.nodes + root_chain(0, first as int, *prop));
        assert(arena@.offsets =~= old(arena)@.offsets + Seq::new(
            0,
            |level: int| None::<FileOffset>,
        ));
    }
    while level < count
        invariant
            level <= count,
            count == max_cache_level + 1,
            first == old(arena)@.nodes.len(),
            first + count <= usize::MAX,
            arena.wf(),
            arena.cells@ == old(arena).cells@,
            levels@ == Seq::new(level as nat, |l: int| (first + l) as usize),
            arena@.nodes == old(arena)@.nodes + root_chain(level as int, first as int, *prop),
            arena@.offsets == old(arena)@.offsets + Seq::new(
                level as nat,
                |l: int| None::<FileOffset>,
            ),
        decreases count - level,
    {
        let ghost before = arena@;
        let mut node = MergedNode::new(0, level as u8);
        node.set_prop_ready(share(prop));
        if level > 0 {
            node.set_parent(LazyItem::from_item(first + level - 1));
        }
        let handle: Item = arena.insert(node);
        if level > 0 {
            arena.get_mut(first + level - 1).set_child(LazyItem::from_item(handle));
        }
        levels.push(handle);
        level = level + 1;
        proof {
            let want = old(arena)@.nodes + root_chain(level as int, first as int, *prop);
            assert(arena@.nodes.len() == want.len());
            assert forall|k: int| 0 <= k < want.len() implies arena@.nodes[k] == want[k] by {
                if k < first + level - 2 {
                    assert(arena@.nodes[k] == before.nodes[k]);
                }
            }
            assert(arena@.nodes =~= want);
            assert(arena@.offsets =~= old(arena)@.offsets + Seq::new(
                level as nat,
                |l: int| None::<FileOffset>,
            ));
            assert(levels@ =~= Seq::new(level as nat, |l: int| (first + l) as usize));
        }
    }
    levels
}

/// What a new store starts with.
#[derive(Debug)]
pub struct StoreInit {
    /// The holder of the cell of the root node at level 0.
    pub root: LazyItemRef,
    /// The root node of each level.
    pub levels: Vec<Item>,
    pub quant_dim: usize,
}

/// Starts a store: checks the name and the dimension, builds the chain of
/// root nodes, one for each level, around the property `prop`, and writes
/// the chain at the cursor.
pub fn init_vector_store(
    name: &str,
    size: usize,
    max_cache_level: u8,
    prop: Arc<NodeProp>,
    arena: &mut NodeArena,
    writer: &mut CustomBufferedWriter,
) -> (r: Result<StoreInit, WaCustomError>)
    requires
        old(arena).wf(),
        old(writer)@.wf(),
        old(arena)@.nodes.len() + max_cache_level + 1 <= usize::MAX,
    ensures
        final(arena).wf(),
        final(writer)@.wf(),
        ({
            let first = old(arena)@.nodes.len();
            let levels = Seq::new(
                (max_cache_level + 1) as nat,
                |level: int| (first + level) as usize,
            );
            let nodes = old(arena)@.nodes + root_chain(max_cache_level + 1, first as int, prop);
            let blank = old(arena)@.offsets + Seq::new(
                (max_cache_level + 1) as nat,
                |level: int| None::<FileOffset>,
            );
            let l = nodes_layout(nodes, blank, levels, old(writer)@.position() as int);
            if name@.len() == 0 || size == 0 {
                &&& r matches Err(e) && e is InvalidParams
                &&& final(arena)@ == old(arena)@
                &&& final(arena).cells@ == old(arena).cells@
                &&& final(writer)@ == old(writer)@
            } else if old(writer)@.position() + l.bytes.len() <= MAX_FILE_LEN {
                &&& r matches Ok(init)
                &&& r->Ok_0.root.place matches CellPlace::Own(cell) && cell == old(
                    arena,
                ).cells@.len()
                &&& final(arena).cells@ == old(arena).cells@.push(
                    LazyItem::Valid { data: Some(first as usize), offset: None, decay_counter: 0 },
                )
                &&& r->Ok_0.levels@ == levels
                &&& r->Ok_0.quant_dim == size / 32
                &&& final(arena)@.nodes == nodes
                &&& final(arena)@.offsets == l.offsets
                &&& final(writer)@ == old(writer)@.written(l.bytes)
            } else {
                &&& r matches Err(e) && e == WaCustomError::SerializationError(
                    StoreError::FileTooLarge,
                )
                &&& final(arena)@.nodes == nodes
                &&& final(arena).cells@ == old(arena).cells@
            }
        }),
{
    match validate_store_params(name, size) {
        Err(e) => {
            return Err(e);
        },
        Ok(()) => {},
    }
    let levels = build_root_chain(arena, max_cache_level, &prop);
    match persist_nodes(arena, &levels, writer) {
        Err(e) => Err(WaCustomError::SerializationError(e)),
        Ok(()) => {
            let root = LazyItemRef::from_item(levels[0], arena);
            Ok(StoreInit { root, levels, quant_dim: quant_dim(size) })
        },
    }
}

/// The number of embeddings without an index as the key-value store holds
/// it: four bytes, little-endian.
pub open spec fn count_unindexed_of(bytes: Seq<u8>) -> Result<u32, LoadError> {
    if bytes.len() < 4 {
        Err(LoadError::Truncated)
    } else if bytes.len() > 4 {
        Err(LoadError::Corrupt)
    } else {
        Ok(read32(bytes, 0))
    }
}

/// Reads the number of embeddings without an index.
pub fn decode_count_unindexed(bytes: &[u8]) -> (r: Result<u32, WaCustomError>)
    ensures
        match count_unindexed_of(bytes@) {
            Ok(count) => r matches Ok(c) && c == count,
            Err(e) => r matches Err(x) && x == WaCustomError::DeserializationError(e),
        },
{
    let len: usize = bytes.len();
    if len < 4 {
        return Err(WaCustomError::DeserializationError(LoadError::Truncated));
    }
    if len > 4 {
        return Err(WaCustomError::DeserializationError(LoadError::Corrupt));
    }
    Ok(read_u32_at(bytes, 0))
}

/// What an upload does once the embeddings are stored.
#[derive(Debug)]
pub struct UploadPlan {
    /// Whether there are enough embeddings without an index to index them.
    pub index_embeddings: bool,
    /// How many embeddings the indexing pass takes.
    pub batch_size: u32,
    /// The version that the commit writes.
    pub new_version: VersionHash,
    /// The name of the index file of that version.
    pub index_file: String,
}

/// Decides what an upload does once the embeddings are stored: whether to
/// index, and which version to write into which file.
pub fn run_upload(count_unindexed: &[u8], config: &Config, current_version: VersionHash) -> (r:
    Result<UploadPlan, WaCustomError>)
    requires
        current_version.version < u32::MAX,
    ensures
        match count_unindexed_of(count_unindexed@) {
            Ok(count) => {
                &&& r matches Ok(plan)
                &&& r->Ok_0.index_embeddings == (count >= config.threshold)
                &&& r->Ok_0.batch_size == config.batch_size
                &&& r->Ok_0.new_version == (VersionHash {
                    branch: current_version.branch,
                    version: (current_version.version + 1) as u32,
                })
                &&& r->Ok_0.index_file@ == index_file_text((current_version.version + 1) as u32)
            },
            Err(e) => r matches Err(x) && x == WaCustomError::DeserializationError(e),
        },
{
    let count: u32 = match decode_count_unindexed(count_unindexed) {
        Err(e) => {
            return Err(e);
        },
        Ok(count) => count,
    };
    let new_version = VersionHash::new(current_version.branch, current_version.version + 1);
    Ok(
        UploadPlan {
            index_embeddings: count >= config.threshold,
            batch_size: config.batch_size,
            new_version,
            index_file: index_file_name(new_version.version),
        },
    )
}

} // verus!
