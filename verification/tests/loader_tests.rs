use cosdata::models::cache_loader::{NodeRegistry, MAX_LOADS};
use cosdata::models::common::LoadError;
use cosdata::models::custom_buffered_writer::CustomBufferedWriter;
use cosdata::models::lazy_load::{
    EagerLazyItem, EagerLazyItemSet, LazyItem, LazyItemMap, LazyItemRef, LazyItemSet, SyncPersist,
};
use cosdata::models::node_arena::NodeArena;
use cosdata::models::serializer::CustomSerialize;
use cosdata::models::types::{MergedNode, PropState};
use std::collections::HashSet;

fn put_u32(bytes: &mut [u8], at: usize, value: u32) {
    bytes[at..at + 4].copy_from_slice(&value.to_le_bytes());
}

/// Two nodes that name each other: the first as the child of the second,
/// the second as the parent of the first.
fn cycle_of_two() -> (Vec<u8>, u32, u32) {
    let mut arena = NodeArena::new();
    let a = LazyItem::new(MergedNode::new(1, 2), &mut arena);
    let b = LazyItem::new(MergedNode::new(2, 2), &mut arena);
    arena.get_mut(a.get_data().unwrap()).set_parent(b);
    arena.get_mut(b.get_data().unwrap()).set_child(a);
    let mut writer = CustomBufferedWriter::new(0).unwrap();
    let holder = LazyItemRef::from_lazy(a, &mut arena);
    let at_a = holder.serialize(&mut arena, &mut writer).unwrap();
    // What was written is the offset known for each item from now on.
    assert_eq!(a.get_offset(&arena), Some(at_a));
    assert_eq!(holder.get_offset(&arena), Some(at_a));
    let at_b = b.get_offset(&arena).unwrap();
    (writer.flush(), at_a, at_b)
}

#[test]
fn a_cycle_is_written_with_back_references() {
    let (bytes, at_a, at_b) = cycle_of_two();
    assert_eq!((at_a, at_b), (0, 27));
    assert_eq!(bytes.len(), 54);
    // The parent of the first is the second; the child of the second is the first.
    assert_eq!(&bytes[11..15], &27u32.to_le_bytes());
    assert_eq!(&bytes[27 + 15..27 + 19], &0u32.to_le_bytes());
}

#[test]
fn following_a_cycle_returns_to_the_origin_handle() {
    let (bytes, at_a, at_b) = cycle_of_two();
    let mut cache = NodeRegistry::new(16, bytes);
    let a = cache.load_item::<LazyItem>(at_a).unwrap();
    let handle_a = a.get_data().unwrap();
    assert_eq!(a.get_offset(&cache.arena), Some(at_a));

    let parent = cache.node(handle_a).get_parent();
    assert_eq!(parent.get_offset(&cache.arena), Some(at_b));
    let handle_b = parent.get_data().unwrap();
    assert_eq!(cache.node(handle_b).version_id, 2);

    // The way back is an offset without a node: the first node was still
    // being loaded when the second was.
    let back = cache.node(handle_b).get_child();
    assert_eq!(back, LazyItem::from_offset(at_a));
    let at_back = back.get_offset(&cache.arena).unwrap();
    let resolved = cache.load_item::<LazyItem>(at_back).unwrap();
    assert_eq!(resolved, a);
    assert_eq!(resolved.get_data(), Some(handle_a));
}

#[test]
fn an_offset_loaded_twice_gives_the_same_handle() {
    let (bytes, at_a, at_b) = cycle_of_two();
    let mut cache = NodeRegistry::new(16, bytes);
    let first = cache.load_item::<LazyItem>(at_b).unwrap();
    let nodes = cache.arena.len();
    let second = cache.load_item::<LazyItem>(at_b).unwrap();
    assert_eq!(first, second);
    assert_eq!(cache.arena.len(), nodes);
    let holder = cache.load_item::<LazyItemRef>(at_b).unwrap();
    assert_eq!(holder.get(&cache.arena), first);
    let a = cache.load_item::<LazyItem>(at_a).unwrap();
    assert_eq!(cache.load_item::<LazyItem>(at_a).unwrap(), a);
}

#[test]
fn a_loaded_node_is_in_step_with_the_file() {
    let (bytes, at_a, _) = cycle_of_two();
    let mut cache = NodeRegistry::new(16, bytes);
    let node = cache.load_item::<MergedNode>(at_a).unwrap();
    assert!(!node.needs_persistence());
    assert!(matches!(node.get_prop(), PropState::Pending((0, 0))));
    assert_eq!(node.version_id, 1);
    assert_eq!(node.hnsw_level, 2);
}

#[test]
fn no_load_left_gives_an_offset_without_a_node() {
    let (bytes, at_a, at_b) = cycle_of_two();
    let mut cache = NodeRegistry::new(16, bytes);
    let mut skipm = HashSet::new();
    assert_eq!(
        cache.get_object(at_a, 0, &mut skipm).unwrap(),
        LazyItem::from_offset(at_a)
    );
    assert_eq!(cache.arena.len(), 0);
    // One load: the node itself, and its parent as an offset only.
    let a = cache.get_object(at_a, 1, &mut skipm).unwrap();
    let node = cache.node(a.get_data().unwrap());
    assert_eq!(node.get_parent(), LazyItem::from_offset(at_b));
    assert_eq!(cache.arena.len(), 1);
    assert_eq!(MAX_LOADS, 1000);
}

#[test]
fn an_offset_in_progress_gives_an_offset_without_a_node() {
    let (bytes, at_a, _) = cycle_of_two();
    let mut cache = NodeRegistry::new(16, bytes);
    let mut skipm = HashSet::new();
    skipm.insert(at_a);
    assert_eq!(
        LazyItem::deserialize(&mut cache, at_a, 5, &mut skipm).unwrap(),
        LazyItem::from_offset(at_a)
    );
}

#[test]
fn an_offset_outside_the_file_is_corrupt() {
    let (bytes, _, _) = cycle_of_two();
    let mut cache = NodeRegistry::new(16, bytes.clone());
    assert_eq!(cache.load_item::<MergedNode>(54).unwrap_err(), LoadError::Corrupt);
    assert_eq!(cache.load_item::<LazyItem>(1000).unwrap_err(), LoadError::Corrupt);
    assert_eq!(cache.load_item::<EagerLazyItem>(54).unwrap_err(), LoadError::Corrupt);
    assert_eq!(cache.load_item::<LazyItemSet>(54).unwrap_err(), LoadError::Corrupt);

    // A parent that points behind the end of the file.
    let mut broken = bytes;
    put_u32(&mut broken, 11, 5000);
    let mut cache = NodeRegistry::new(16, broken);
    assert_eq!(cache.load_item::<MergedNode>(0).unwrap_err(), LoadError::Corrupt);
}

#[test]
fn a_record_that_is_cut_off_is_truncated() {
    let (bytes, _, at_b) = cycle_of_two();
    let mut cache = NodeRegistry::new(16, bytes[..53].to_vec());
    assert_eq!(cache.load_item::<MergedNode>(at_b).unwrap_err(), LoadError::Truncated);
    assert_eq!(cache.load_item::<MergedNode>(0).unwrap_err(), LoadError::Truncated);
    let mut cache = NodeRegistry::new(16, bytes[..30].to_vec());
    assert_eq!(cache.load_item::<EagerLazyItem>(27).unwrap_err(), LoadError::Truncated);
    assert_eq!(cache.load_item::<LazyItemSet>(27).unwrap_err(), LoadError::Truncated);
}

#[test]
fn a_chain_that_does_not_advance_is_corrupt() {
    // One chunk whose link points at itself.
    let mut bytes = vec![0xffu8; 24];
    put_u32(&mut bytes, 20, 0);
    let mut cache = NodeRegistry::new(16, bytes);
    assert_eq!(cache.load_item::<LazyItemSet>(0).unwrap_err(), LoadError::Corrupt);
    assert_eq!(cache.load_item::<EagerLazyItemSet>(0).unwrap_err(), LoadError::Corrupt);
    assert_eq!(cache.load_item::<LazyItemMap>(0).unwrap_err(), LoadError::Corrupt);
}

#[test]
fn a_map_entry_without_its_offset_is_truncated() {
    // A chunk with one slot, and behind it an integer key and nothing else.
    let mut bytes = vec![0xffu8; 24];
    put_u32(&mut bytes, 0, 24);
    bytes.extend_from_slice(&7u32.to_le_bytes());
    let mut cache = NodeRegistry::new(16, bytes);
    assert_eq!(cache.load_item::<LazyItemMap>(0).unwrap_err(), LoadError::Truncated);
}

#[test]
fn an_eager_item_round_trips_its_bits() {
    let mut arena = NodeArena::new();
    let nan = 0x7fc0_1234u32;
    let item = EagerLazyItem(nan, LazyItem::new(MergedNode::new(4, 1), &mut arena));
    let mut writer = CustomBufferedWriter::new(0).unwrap();
    let offset = item.serialize(&mut arena, &mut writer).unwrap();
    let bytes = writer.flush();
    assert_eq!(&bytes[0..4], &nan.to_le_bytes());
    assert_eq!(&bytes[4..8], &8u32.to_le_bytes());
    let mut cache = NodeRegistry::new(16, bytes);
    let loaded = cache.load_item::<EagerLazyItem>(offset).unwrap();
    assert_eq!(loaded.0, nan);
    assert_eq!(loaded.1.get_offset(&cache.arena), Some(8));
}

#[test]
fn a_shared_neighbor_is_written_once() {
    let mut arena = NodeArena::new();
    let a = arena.insert(MergedNode::new(1, 2));
    let b = arena.insert(MergedNode::new(2, 2));
    let c = arena.insert(MergedNode::new(3, 2));
    arena.get_mut(a).set_parent(LazyItem::from_item(b));
    arena.get_mut(b).set_child(LazyItem::from_item(a));
    arena.get_mut(b).set_parent(LazyItem::from_item(c));
    arena.get_mut(c).set_child(LazyItem::from_item(b));
    arena.add_ready_neighbor(a, LazyItem::from_item(c), 0.9f32.to_bits());
    let mut writer = CustomBufferedWriter::new(0).unwrap();
    let at_a = LazyItem::from_item(a).serialize(&mut arena, &mut writer).unwrap();
    let bytes = writer.flush();
    // Three records, one chunk and one entry of eight bytes.
    assert_eq!(bytes.len(), 3 * 27 + 24 + 8);
    let at_c = arena.offset_of(c).unwrap();

    let mut cache = NodeRegistry::new(16, bytes);
    let loaded = cache.load_item::<LazyItem>(at_a).unwrap();
    let node_a = cache.node(loaded.get_data().unwrap());
    let parent = cache.node(node_a.get_parent().get_data().unwrap());
    let grand = parent.get_parent();
    assert!(grand.is_valid());
    assert_eq!(grand.get_offset(&cache.arena), Some(at_c));
    let neighbors = node_a.get_neighbors().iter();
    assert_eq!(neighbors.len(), 1);
    assert_eq!(f32::from_bits(neighbors[0].0), 0.9);
    // The neighbour is the node that was loaded as the parent of the parent.
    assert_eq!(neighbors[0].1, grand);
}

/// A graph of `count` nodes whose links are drawn from a fixed sequence.
fn scrambled_graph(count: usize) -> NodeArena {
    let mut arena = NodeArena::new();
    for i in 0..count {
        let mut node = MergedNode::new(i as u16, (i % 7) as u8);
        node.set_prop_location((1000 + i as u32, 8));
        arena.insert(node);
    }
    let mut state: u64 = 0x2545_f491_4f6c_dd1d;
    let mut next = |bound: usize| {
        state ^= state << 13;
        state ^= state >> 7;
        state ^= state << 17;
        (state % bound as u64) as usize
    };
    for i in 0..count {
        if next(4) != 0 {
            let parent = next(count);
            arena.get_mut(i).set_parent(LazyItem::from_item(parent));
        }
        if next(4) != 0 {
            let child = next(count);
            arena.get_mut(i).set_child(LazyItem::from_item(child));
        }
        for _ in 0..next(13) {
            let neighbor = next(count);
            arena.add_ready_neighbor(i, LazyItem::from_item(neighbor), next(1 << 20) as u32);
        }
        if next(3) == 0 {
            arena.add_version(i, next(count));
        }
    }
    arena
}

#[test]
fn every_node_that_was_written_is_loaded_as_it_was() {
    let mut arena = scrambled_graph(60);
    let mut writer = CustomBufferedWriter::new(0).unwrap();
    for item in 0..arena.len() {
        LazyItem::from_item(item).serialize(&mut arena, &mut writer).unwrap();
    }
    let file = writer.flush();
    let offset_of = |item: &LazyItem| item.get_offset(&arena);

    for item in 0..arena.len() {
        let written = arena.get(item);
        let mut cache = NodeRegistry::new(64, file.clone());
        let loaded: MergedNode = cache.load_item(arena.offset_of(item).unwrap()).unwrap();
        assert_eq!(loaded.version_id, written.version_id);
        assert_eq!(loaded.hnsw_level, written.hnsw_level);
        assert_eq!(loaded.get_prop_location(), written.get_prop_location());
        assert!(!loaded.needs_persistence());
        assert_eq!(loaded.get_parent().is_valid(), written.get_parent().is_valid());
        assert_eq!(loaded.get_child().is_valid(), written.get_child().is_valid());
        assert_eq!(loaded.get_parent().get_offset(&cache.arena), offset_of(&written.get_parent()));
        assert_eq!(loaded.get_child().get_offset(&cache.arena), offset_of(&written.get_child()));

        let neighbors = written.get_neighbors().iter();
        let loaded_neighbors = loaded.get_neighbors().iter();
        assert_eq!(loaded_neighbors.len(), neighbors.len());
        for (read, wrote) in loaded_neighbors.iter().zip(&neighbors) {
            assert_eq!(read.0, wrote.0);
            assert_eq!(read.1.get_offset(&cache.arena), offset_of(&wrote.1));
            assert_eq!(read.1.get_id(&cache.arena), wrote.1.get_id(&arena));
        }
        assert_eq!(loaded.get_versions().len(), written.get_versions().len());
        for place in 0..written.get_versions().len() {
            let (key, read) = loaded.get_versions().items.get(place);
            let (wrote_key, wrote) = written.get_versions().items.get(place);
            assert!(key.same_as(wrote_key));
            assert_eq!(read.get_offset(&cache.arena), offset_of(&wrote));
        }
    }
}

#[test]
fn a_registry_holds_one_node_for_each_offset() {
    let mut arena = scrambled_graph(40);
    let mut writer = CustomBufferedWriter::new(0).unwrap();
    for item in 0..arena.len() {
        LazyItem::from_item(item).serialize(&mut arena, &mut writer).unwrap();
    }
    let mut cache = NodeRegistry::new(64, writer.flush());
    let mut handles = Vec::new();
    for item in 0..arena.len() {
        let loaded: LazyItem = cache.load_item(arena.offset_of(item).unwrap()).unwrap();
        handles.push(loaded.get_data().unwrap());
        assert_eq!(cache.node(handles[item]).version_id as usize, item);
    }
    // Nothing is loaded twice: one node in the registry for each node written.
    assert_eq!(cache.arena.len(), arena.len());
    for item in 0..arena.len() {
        let again: LazyItem = cache.load_item(arena.offset_of(item).unwrap()).unwrap();
        assert_eq!(again.get_data(), Some(handles[item]));
        // Every link leads to the node that was loaded for its offset.
        let parent = cache.node(handles[item]).get_parent();
        if let Some(offset) = parent.get_offset(&cache.arena) {
            let resolved: LazyItem = cache.load_item(offset).unwrap();
            let target = arena.get(item).get_parent().get_data().unwrap();
            assert_eq!(resolved.get_data(), Some(handles[target]));
        }
    }
    assert_eq!(cache.arena.len(), arena.len());
}

#[test]
fn a_second_round_trip_changes_nothing() {
    let mut arena = scrambled_graph(30);
    let mut writer = CustomBufferedWriter::new(0).unwrap();
    for item in 0..arena.len() {
        LazyItem::from_item(item).serialize(&mut arena, &mut writer).unwrap();
    }
    let file = writer.flush();
    for item in 0..arena.len() {
        let mut cache = NodeRegistry::new(64, file.clone());
        let loaded: MergedNode = cache.load_item(arena.offset_of(item).unwrap()).unwrap();

        // The node is written behind what the file holds and loaded from there.
        let mut writer = CustomBufferedWriter::new(file.len() as u64).unwrap();
        let offset = loaded.serialize(&mut cache.arena, &mut writer).unwrap();
        let mut longer = file.clone();
        longer.extend_from_slice(&writer.flush());
        let mut again_cache = NodeRegistry::new(64, longer);
        let again: MergedNode = again_cache.load_item(offset).unwrap();

        assert_eq!(again.version_id, loaded.version_id);
        assert_eq!(again.hnsw_level, loaded.hnsw_level);
        assert_eq!(again.get_prop_location(), loaded.get_prop_location());
        assert_eq!(again.needs_persistence(), loaded.needs_persistence());
        let in_first = |item: LazyItem| (item.is_valid(), item.get_offset(&cache.arena));
        let in_second = |item: LazyItem| (item.is_valid(), item.get_offset(&again_cache.arena));
        assert_eq!(in_second(again.get_parent()), in_first(loaded.get_parent()));
        assert_eq!(in_second(again.get_child()), in_first(loaded.get_child()));
        let first: Vec<_> = loaded
            .get_neighbors()
            .items
            .entries
            .iter()
            .map(|e| (e.0, e.1 .0, in_first(e.1 .1)))
            .collect();
        let second: Vec<_> = again
            .get_neighbors()
            .items
            .entries
            .iter()
            .map(|e| (e.0, e.1 .0, in_second(e.1 .1)))
            .collect();
        assert_eq!(first, second);
        assert_eq!(again.get_versions().len(), loaded.get_versions().len());
        for place in 0..loaded.get_versions().len() {
            let (key, item) = again.get_versions().items.get(place);
            let (first_key, first_item) = loaded.get_versions().items.get(place);
            assert!(key.same_as(first_key));
            assert_eq!(in_second(item), in_first(first_item));
        }
    }
}
