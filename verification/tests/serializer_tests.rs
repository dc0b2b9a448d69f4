use cosdata::models::cache_loader::NodeRegistry;
use cosdata::models::custom_buffered_writer::CustomBufferedWriter;
use cosdata::models::lazy_load::{
    EagerLazyItem, EagerLazyItemSet, LazyItem, LazyItemRef, LazyItemSet,
};
use cosdata::models::node_arena::NodeArena;
use cosdata::models::serializer::CustomSerialize;
use cosdata::models::types::{HNSWLevel, MergedNode, VersionId};

fn get_cache(reader: Vec<u8>) -> NodeRegistry {
    NodeRegistry::new(1000, reader)
}

fn new_writer() -> CustomBufferedWriter {
    CustomBufferedWriter::new(0).unwrap()
}

// Helper function to create a simple MergedNode
fn simple_merged_node(version_id: VersionId, hnsw_level: HNSWLevel) -> MergedNode {
    MergedNode::new(version_id, hnsw_level)
}

#[test]
fn test_lazy_item_serialization() {
    let mut arena = NodeArena::new();
    let node = simple_merged_node(1, 2);
    let lazy_item = LazyItemRef::new(node, &mut arena);

    let mut writer = new_writer();
    let offset = lazy_item.serialize(&mut arena, &mut writer).unwrap();

    let mut cache = get_cache(writer.flush());
    let deserialized: LazyItemRef = cache.load_item(offset).unwrap();

    match (lazy_item.get(&arena), deserialized.get(&cache.arena)) {
        (
            LazyItem::Valid { data: Some(original), .. },
            LazyItem::Valid { data: Some(deserialized), .. },
        ) => {
            let original = arena.get(original);
            let deserialized = cache.node(deserialized);
            assert_eq!(original.version_id, deserialized.version_id);
            assert_eq!(original.hnsw_level, deserialized.hnsw_level);
        }
        _ => panic!("Deserialization mismatch"),
    }
}

#[test]
fn test_eager_lazy_item_serialization() {
    let mut arena = NodeArena::new();
    let item = EagerLazyItem(
        10.5f32.to_bits(),
        LazyItem::new(simple_merged_node(1, 2), &mut arena),
    );

    let mut writer = new_writer();
    let offset = item.serialize(&mut arena, &mut writer).unwrap();

    let mut cache = get_cache(writer.flush());
    let deserialized: EagerLazyItem = cache.load_item(offset).unwrap();

    assert_eq!(f32::from_bits(item.0), f32::from_bits(deserialized.0));
    assert_eq!(f32::from_bits(deserialized.0), 10.5);

    if let (Some(node), Some(loaded)) = (item.1.get_data(), deserialized.1.get_data()) {
        let node = arena.get(node);
        let deserialized = cache.node(loaded);

        assert_eq!(node.version_id, deserialized.version_id);
        assert_eq!(node.hnsw_level, deserialized.hnsw_level);
    } else {
        panic!("Deserialization mismatch");
    }
}

#[test]
fn test_lazy_item_set_serialization() {
    let mut arena = NodeArena::new();
    let mut lazy_items = LazyItemSet::new();
    lazy_items.insert(LazyItem::from_data(simple_merged_node(1, 2), &mut arena), &arena);
    lazy_items.insert(LazyItem::from_data(simple_merged_node(2, 2), &mut arena), &arena);

    let mut writer = new_writer();
    let offset = lazy_items.serialize(&mut arena, &mut writer).unwrap();

    let mut cache = get_cache(writer.flush());
    let deserialized: LazyItemSet = cache.load_item(offset).unwrap();

    assert_eq!(lazy_items.len(), deserialized.len());
    for (original, deserialized) in lazy_items.iter().into_iter().zip(deserialized.iter()) {
        match (original, deserialized) {
            (
                LazyItem::Valid { data: Some(original), .. },
                LazyItem::Valid { data: Some(deserialized), .. },
            ) => {
                let original = arena.get(original);
                let deserialized = cache.node(deserialized);
                assert_eq!(original.version_id, deserialized.version_id);
                assert_eq!(original.hnsw_level, deserialized.hnsw_level);
            }
            _ => panic!("Deserialization mismatch"),
        }
    }
}

#[test]
fn test_eager_lazy_item_set_serialization() {
    let mut arena = NodeArena::new();
    let mut lazy_items = EagerLazyItemSet::new();
    lazy_items.insert(
        EagerLazyItem(
            1.0f32.to_bits(),
            LazyItem::from_data(simple_merged_node(1, 2), &mut arena),
        ),
        &arena,
    );
    lazy_items.insert(
        EagerLazyItem(
            2.5f32.to_bits(),
            LazyItem::from_data(simple_merged_node(2, 2), &mut arena),
        ),
        &arena,
    );

    let mut writer = new_writer();
    let offset = lazy_items.serialize(&mut arena, &mut writer).unwrap();

    let mut cache = get_cache(writer.flush());
    let deserialized: EagerLazyItemSet = cache.load_item(offset).unwrap();

    assert_eq!(lazy_items.len(), deserialized.len());
    for (original, deserialized) in lazy_items.iter().into_iter().zip(deserialized.iter()) {
        match (original, deserialized) {
            (
                EagerLazyItem(original_data, LazyItem::Valid { data: Some(original), .. }),
                EagerLazyItem(deserialized_data, LazyItem::Valid { data: Some(deserialized), .. }),
            ) => {
                let original = arena.get(original);
                let deserialized = cache.node(deserialized);
                assert_eq!(f32::from_bits(original_data), f32::from_bits(deserialized_data));
                assert_eq!(original.version_id, deserialized.version_id);
                assert_eq!(original.hnsw_level, deserialized.hnsw_level);
            }
            _ => panic!("Deserialization mismatch"),
        }
    }
}

#[test]
fn test_merged_node_acyclic_serialization() {
    let mut arena = NodeArena::new();
    let node = simple_merged_node(1, 2);

    let mut writer = new_writer();
    let offset = node.serialize(&mut arena, &mut writer).unwrap();

    let mut cache = get_cache(writer.flush());
    let deserialized: MergedNode = cache.load_item(offset).unwrap();

    assert_eq!(node.version_id, deserialized.version_id);
    assert_eq!(node.hnsw_level, deserialized.hnsw_level);
    assert!(deserialized.get_parent().is_invalid());
    assert!(deserialized.get_child().is_invalid());
    assert_eq!(deserialized.get_neighbors().len(), 0);
    assert_eq!(deserialized.get_versions().len(), 0);
}

#[test]
fn test_merged_node_with_neighbors_serialization() {
    let mut arena = NodeArena::new();
    let mut node = MergedNode::new(1, 2);

    let neighbor1 = LazyItem::from_data(MergedNode::new(2, 1), &mut arena);
    let neighbor2 = LazyItem::from_data(MergedNode::new(3, 1), &mut arena);
    node.add_ready_neighbor(neighbor1, 0.9f32.to_bits(), &arena);
    node.add_ready_neighbor(neighbor2, 0.8f32.to_bits(), &arena);

    let mut writer = new_writer();
    let offset = node.serialize(&mut arena, &mut writer).unwrap();

    let mut cache = get_cache(writer.flush());
    let deserialized: MergedNode = cache.load_item(offset).unwrap();

    let original_neighbors = node.get_neighbors();
    let deserialized_neighbors = deserialized.get_neighbors();

    // Additional checks
    assert_eq!(original_neighbors.len(), deserialized_neighbors.len());

    for (original, deserialized) in original_neighbors
        .iter()
        .into_iter()
        .zip(deserialized_neighbors.iter())
    {
        match (original, deserialized) {
            (
                EagerLazyItem(original_cs, LazyItem::Valid { data: Some(original), .. }),
                EagerLazyItem(deserialized_cs, LazyItem::Valid { data: Some(deserialized), .. }),
            ) => {
                let original = arena.get(original);
                let deserialized = cache.node(deserialized);

                assert_eq!(original.version_id, deserialized.version_id);
                assert_eq!(original.hnsw_level, deserialized.hnsw_level);
                assert_eq!(f32::from_bits(original_cs), f32::from_bits(deserialized_cs));
            }
            _ => panic!("Deserialization mismatch"),
        }
    }
}

#[test]
fn test_merged_node_with_parent_child_serialization() {
    let mut arena = NodeArena::new();
    let mut node = MergedNode::new(1, 2);
    let parent = LazyItem::new(MergedNode::new(2, 3), &mut arena);
    let child = LazyItem::new(MergedNode::new(3, 1), &mut arena);

    node.set_parent(parent);
    node.set_child(child);

    let mut writer = new_writer();
    let offset = node.serialize(&mut arena, &mut writer).unwrap();

    let mut cache = get_cache(writer.flush());
    let deserialized: MergedNode = cache.load_item(offset).unwrap();

    assert!(matches!(
        deserialized.get_parent(),
        LazyItem::Valid { data: Some(_), .. }
    ));
    assert!(matches!(
        deserialized.get_child(),
        LazyItem::Valid { data: Some(_), .. }
    ));
}

#[test]
fn test_merged_node_with_versions_serialization() {
    let mut arena = NodeArena::new();
    let mut node = MergedNode::new(1, 2);
    let version1 = arena.insert(MergedNode::new(2, 2));
    let version2 = arena.insert(MergedNode::new(3, 2));

    node.add_version(version1, &arena);
    node.add_version(version2, &arena);

    let mut writer = new_writer();
    let offset = node.serialize(&mut arena, &mut writer).unwrap();

    let mut cache = get_cache(writer.flush());
    let deserialized: MergedNode = cache.load_item(offset).unwrap();

    assert_eq!(node.get_versions().len(), deserialized.get_versions().len());
}

#[test]
fn test_merged_node_cyclic_serialization() {
    let mut arena = NodeArena::new();
    let node1 = LazyItem::new(MergedNode::new(1, 2), &mut arena);
    let node2 = LazyItem::new(MergedNode::new(2, 2), &mut arena);

    arena.get_mut(node1.get_data().unwrap()).set_parent(node2);
    arena.get_mut(node2.get_data().unwrap()).set_child(node1);

    let lazy_ref = LazyItemRef::from_lazy(node1, &mut arena);

    let mut writer = new_writer();
    let offset = lazy_ref.serialize(&mut arena, &mut writer).unwrap();

    let mut cache = get_cache(writer.flush());

    let deserialized: MergedNode = cache.load_item(offset).unwrap();

    let parent_ref = deserialized.get_parent();

    // Deserialize the parent
    if let LazyItem::Valid { data: Some(parent), .. } = parent_ref {
        let parent = cache.node(parent);

        let child_ref = parent.get_child();
        let child = child_ref;

        assert!(matches!(child, LazyItem::Valid { data: Some(_), .. }));
    } else {
        panic!("Expected lazy load for parent");
    }
}

#[test]
fn test_merged_node_complex_cyclic_serialization() {
    let mut arena = NodeArena::new();
    let node1 = arena.insert(MergedNode::new(1, 2));
    let node2 = arena.insert(MergedNode::new(2, 2));
    let node3 = arena.insert(MergedNode::new(3, 2));

    let lazy1 = LazyItem::from_item(node1);
    let lazy2 = LazyItem::from_item(node2);
    let lazy3 = LazyItem::from_item(node3);

    arena.get_mut(node1).set_parent(lazy2);
    arena.get_mut(node2).set_child(lazy1);
    arena.get_mut(node2).set_parent(lazy3);
    arena.get_mut(node3).set_child(lazy2);
    arena.add_ready_neighbor(node1, LazyItem::from_item(node3), 0.9f32.to_bits());

    let lazy_ref = LazyItemRef::from_lazy(lazy1, &mut arena);

    let mut writer = new_writer();
    let offset = lazy_ref.serialize(&mut arena, &mut writer).unwrap();
    let mut cache = get_cache(writer.flush());

    let deserialized: LazyItemRef = cache.load_item(offset).unwrap();

    let deserialized_data = deserialized.get_data(&cache.arena).unwrap();

    let parent_ref = cache.node(deserialized_data).get_parent();
    let parent = parent_ref;

    // Deserialize the parent
    if let LazyItem::Valid { data: Some(parent), .. } = parent {
        let child_ref = cache.node(parent).get_child();
        let child = child_ref;

        let grand_parent_ref = cache.node(parent).get_parent();

        let grand_parent = grand_parent_ref;

        if let LazyItem::Valid { data: None, offset, .. } = &child {
            let offset = offset.unwrap();
            let _: MergedNode = cache.load_item(offset).unwrap();
        } else {
            panic!("Deserialization mismatch");
        }

        assert!(matches!(
            grand_parent,
            LazyItem::Valid { data: Some(_), .. }
        ));
    } else {
        panic!("Deserialization Error");
    }
}

#[test]
fn test_lazy_item_set_linked_chunk_serialization() {
    let mut arena = NodeArena::new();
    let mut lazy_items = LazyItemSet::new();
    for i in 1..13 {
        lazy_items.insert(LazyItem::from_data(simple_merged_node(i, 2), &mut arena), &arena);
    }

    let mut writer = new_writer();
    let offset = lazy_items.serialize(&mut arena, &mut writer).unwrap();

    let mut cache = get_cache(writer.flush());
    let deserialized: LazyItemSet = cache.load_item(offset).unwrap();

    assert_eq!(lazy_items.len(), deserialized.len());
    for (original, deserialized) in lazy_items.iter().into_iter().zip(deserialized.iter()) {
        match (original, deserialized) {
            (
                LazyItem::Valid { data: Some(original), .. },
                LazyItem::Valid { data: Some(deserialized), .. },
            ) => {
                let original = arena.get(original);
                let deserialized = cache.node(deserialized);
                assert_eq!(original.version_id, deserialized.version_id);
                assert_eq!(original.hnsw_level, deserialized.hnsw_level);
            }
            _ => panic!("Deserialization mismatch"),
        }
    }
}

#[test]
fn test_eager_lazy_item_set_linked_chunk_serialization() {
    let mut arena = NodeArena::new();
    let mut lazy_items = EagerLazyItemSet::new();
    for i in 1..13 {
        lazy_items.insert(
            EagerLazyItem(
                3.4f32.to_bits(),
                LazyItem::from_data(simple_merged_node(i, 2), &mut arena),
            ),
            &arena,
        );
    }

    let mut writer = new_writer();
    let offset = lazy_items.serialize(&mut arena, &mut writer).unwrap();

    let mut cache = get_cache(writer.flush());
    let deserialized: EagerLazyItemSet = cache.load_item(offset).unwrap();

    assert_eq!(lazy_items.len(), deserialized.len());
    for (original, deserialized) in lazy_items.iter().into_iter().zip(deserialized.iter()) {
        match (original, deserialized) {
            (
                EagerLazyItem(original_data, LazyItem::Valid { data: Some(original), .. }),
                EagerLazyItem(deserialized_data, LazyItem::Valid { data: Some(deserialized), .. }),
            ) => {
                let original = arena.get(original);
                let deserialized = cache.node(deserialized);
                assert_eq!(f32::from_bits(original_data), f32::from_bits(deserialized_data));
                assert_eq!(original.version_id, deserialized.version_id);
                assert_eq!(original.hnsw_level, deserialized.hnsw_level);
            }
            _ => panic!("Deserialization mismatch"),
        }
    }
}
