use cosdata::api_service::{
    build_root_chain, calculate_statistics, decode_count_unindexed, init_vector_store, quant_dim,
    run_upload, validate_store_params, Config,
};
use cosdata::models::cache_loader::NodeRegistry;
use cosdata::models::common::{LoadError, StoreError, WaCustomError};
use cosdata::models::custom_buffered_writer::{CustomBufferedWriter, MAX_FILE_LEN};
use cosdata::models::file_persist::{
    persist_dirty_nodes, persist_nodes, take_dirty, write_prop_to_file, PropFile,
};
use cosdata::models::lazy_load::{LazyItem, SyncPersist};
use cosdata::models::node_arena::NodeArena;
use cosdata::models::serializer::CustomSerialize;
use cosdata::models::types::{MergedNode, NodeProp, PropState, Storage, VectorId};
use cosdata::models::versioning::{index_file_name, VersionHash};
use std::sync::Arc;

fn root_prop() -> Arc<NodeProp> {
    Arc::new(NodeProp {
        id: VectorId::Int(-1),
        value: Arc::new(Storage::UnsignedByte { mag: 0, quant_vec: vec![0; 4] }),
        location: Some((0, 0)),
    })
}

#[test]
fn no_statistics_are_kept() {
    assert_eq!(calculate_statistics(&[]), None);
    assert_eq!(calculate_statistics(&[1, 2, 3]), None);
}

#[test]
fn a_store_needs_a_name_and_a_dimension() {
    assert!(validate_store_params("vectors", 128).is_ok());
    assert!(matches!(validate_store_params("", 128), Err(WaCustomError::InvalidParams)));
    assert!(matches!(validate_store_params("vectors", 0), Err(WaCustomError::InvalidParams)));
    assert_eq!(quant_dim(128), 4);
    assert_eq!(quant_dim(31), 0);
    assert_eq!(quant_dim(65), 2);
}

#[test]
fn the_root_chain_links_each_level_to_its_neighbours() {
    let mut arena = NodeArena::new();
    arena.insert(MergedNode::new(9, 9));
    let levels = build_root_chain(&mut arena, 2, &root_prop());
    assert_eq!(levels, vec![1, 2, 3]);
    assert_eq!(arena.len(), 4);
    for (level, handle) in levels.iter().enumerate() {
        let node = arena.get(*handle);
        assert_eq!(node.version_id, 0);
        assert_eq!(node.hnsw_level as usize, level);
        assert!(node.needs_persistence());
        assert!(matches!(node.get_prop(), PropState::Ready(p) if p.id == VectorId::Int(-1)));
        assert_eq!(arena.offset_of(*handle), None);
    }
    assert_eq!(arena.get(1).get_parent(), LazyItem::Invalid);
    assert_eq!(arena.get(1).get_child(), LazyItem::from_item(2));
    assert_eq!(arena.get(2).get_parent(), LazyItem::from_item(1));
    assert_eq!(arena.get(2).get_child(), LazyItem::from_item(3));
    assert_eq!(arena.get(3).get_parent(), LazyItem::from_item(2));
    assert_eq!(arena.get(3).get_child(), LazyItem::Invalid);

    let single = build_root_chain(&mut arena, 0, &root_prop());
    assert_eq!(single, vec![4]);
    assert!(arena.get(4).get_parent().is_invalid());
    assert!(arena.get(4).get_child().is_invalid());
}

#[test]
fn a_new_store_writes_its_root_chain() {
    let mut arena = NodeArena::new();
    let mut writer = CustomBufferedWriter::new(0).unwrap();
    let init = init_vector_store("vectors", 128, 2, root_prop(), &mut arena, &mut writer).unwrap();
    assert_eq!(init.root.get(&arena), LazyItem::from_item(0));
    assert_eq!(init.root.get_data(&arena), Some(0));
    assert_eq!(init.root.get_offset(&arena), Some(0));
    assert_eq!(init.levels, vec![0, 1, 2]);
    assert_eq!(init.quant_dim, 4);
    // The first node takes the chain with it: its child, and the child of that.
    assert_eq!(arena.offset_of(0), Some(0));
    assert_eq!(arena.offset_of(1), Some(27));
    assert_eq!(arena.offset_of(2), Some(54));
    let bytes = writer.flush();
    assert_eq!(bytes.len(), 81);

    let mut cache = NodeRegistry::new(8, bytes);
    let root = cache.load_item::<LazyItem>(0).unwrap();
    let node = cache.node(root.get_data().unwrap());
    assert_eq!(node.hnsw_level, 0);
    assert!(node.get_parent().is_invalid());
    let above = cache.node(node.get_child().get_data().unwrap());
    assert_eq!(above.hnsw_level, 1);
    assert_eq!(above.get_parent().get_offset(&cache.arena), Some(0));
    let top = cache.node(above.get_child().get_data().unwrap());
    assert_eq!(top.hnsw_level, 2);
    assert!(top.get_child().is_invalid());
}

#[test]
fn a_store_without_a_name_or_without_room_is_refused() {
    let mut arena = NodeArena::new();
    let mut writer = CustomBufferedWriter::new(0).unwrap();
    assert!(matches!(
        init_vector_store("", 128, 2, root_prop(), &mut arena, &mut writer),
        Err(WaCustomError::InvalidParams)
    ));
    assert!(matches!(
        init_vector_store("vectors", 0, 2, root_prop(), &mut arena, &mut writer),
        Err(WaCustomError::InvalidParams)
    ));
    assert_eq!(arena.len(), 0);
    assert_eq!(writer.stream_position(), 0);

    let mut full = CustomBufferedWriter::new(MAX_FILE_LEN - 80).unwrap();
    assert!(matches!(
        init_vector_store("vectors", 128, 2, root_prop(), &mut arena, &mut full),
        Err(WaCustomError::SerializationError(StoreError::FileTooLarge))
    ));
}

#[test]
fn the_count_of_embeddings_without_an_index_is_four_bytes() {
    assert_eq!(decode_count_unindexed(&[1, 2, 0, 0]).unwrap(), 513);
    assert!(matches!(
        decode_count_unindexed(&[1, 2, 0]),
        Err(WaCustomError::DeserializationError(LoadError::Truncated))
    ));
    assert!(matches!(
        decode_count_unindexed(&[]),
        Err(WaCustomError::DeserializationError(LoadError::Truncated))
    ));
    assert!(matches!(
        decode_count_unindexed(&[1, 2, 0, 0, 0]),
        Err(WaCustomError::DeserializationError(LoadError::Corrupt))
    ));
}

#[test]
fn an_upload_indexes_from_the_threshold_on() {
    let config = Config { threshold: 100, batch_size: 32 };
    let current = VersionHash::new(5, 7);
    let plan = run_upload(&99u32.to_le_bytes(), &config, current).unwrap();
    assert!(!plan.index_embeddings);
    assert_eq!(plan.batch_size, 32);
    assert_eq!(plan.new_version, VersionHash { branch: 5, version: 8 });
    assert_eq!(plan.index_file, "8.index");
    assert!(run_upload(&100u32.to_le_bytes(), &config, current).unwrap().index_embeddings);
    assert!(run_upload(&u32::MAX.to_le_bytes(), &config, current).unwrap().index_embeddings);
    assert!(matches!(
        run_upload(&[1], &config, current),
        Err(WaCustomError::DeserializationError(LoadError::Truncated))
    ));
}

#[test]
fn each_version_has_its_index_file() {
    assert_eq!(index_file_name(0), "0.index");
    assert_eq!(index_file_name(42), "42.index");
    assert_eq!(index_file_name(u32::MAX), "4294967295.index");
    assert_eq!(VersionHash::new(1, 0).next(), Some(VersionHash { branch: 1, version: 1 }));
    assert_eq!(VersionHash::new(1, u32::MAX).next(), None);
}

#[test]
fn a_property_is_recorded_on_its_node() {
    let mut file = PropFile::new(40);
    let mut node = MergedNode::new(1, 1);
    assert_eq!(write_prop_to_file(&mut node, &mut file, 12).unwrap(), (40, 12));
    assert_eq!(node.get_prop_location(), Some((40, 12)));
    assert_eq!(file.len, 52);
    let mut full = PropFile::new(MAX_FILE_LEN);
    assert_eq!(
        write_prop_to_file(&mut node, &mut full, 1).unwrap_err(),
        StoreError::FileTooLarge
    );
    assert_eq!(node.get_prop_location(), Some((40, 12)));
}

#[test]
fn nodes_are_written_one_after_the_other() {
    let mut arena = NodeArena::new();
    let a = arena.insert(MergedNode::new(1, 0));
    let b = arena.insert(MergedNode::new(2, 0));
    let mut writer = CustomBufferedWriter::new(0).unwrap();
    persist_nodes(&mut arena, &vec![b, a, b], &mut writer).unwrap();
    assert_eq!(arena.offset_of(b), Some(0));
    assert_eq!(arena.offset_of(a), Some(27));
    let bytes = writer.flush();
    assert_eq!(bytes.len(), 54);
    assert_eq!(&bytes[0..3], &[2, 0, 0]);
    assert_eq!(&bytes[27..30], &[1, 0, 0]);
}

#[test]
fn a_commit_writes_the_nodes_that_are_yet_to_be_written() {
    let mut arena = NodeArena::new();
    let clean = arena.insert_persisted(MergedNode::new(1, 0), 500);
    arena.get_mut(clean).set_persistence(false);
    let stale = arena.insert_persisted(MergedNode::new(2, 0), 600);
    let fresh = arena.insert(MergedNode::new(3, 0));
    arena.get_mut(fresh).set_parent(LazyItem::from_item(clean));
    arena.get_mut(fresh).set_child(LazyItem::from_item(stale));

    let mut writer = CustomBufferedWriter::new(0).unwrap();
    assert_eq!(persist_dirty_nodes(&mut arena, &mut writer).unwrap(), 2);
    assert_eq!(arena.offset_of(clean), Some(500));
    assert_eq!(arena.offset_of(stale), Some(0));
    assert_eq!(arena.offset_of(fresh), Some(27));
    for handle in [clean, stale, fresh] {
        assert!(!arena.get(handle).needs_persistence());
    }
    let bytes = writer.flush();
    assert_eq!(bytes.len(), 54);
    assert_eq!(&bytes[27 + 11..27 + 15], &500u32.to_le_bytes());
    assert_eq!(&bytes[27 + 15..27 + 19], &0u32.to_le_bytes());

    // Nothing is left to write.
    assert_eq!(persist_dirty_nodes(&mut arena, &mut writer).unwrap(), 0);
    assert!(writer.flush().is_empty());
    assert!(take_dirty(&mut arena).is_empty());
}

#[test]
fn a_commit_without_room_leaves_the_nodes_marked() {
    let mut arena = NodeArena::new();
    let a = arena.insert(MergedNode::new(1, 0));
    let mut writer = CustomBufferedWriter::new(MAX_FILE_LEN - 10).unwrap();
    assert_eq!(
        persist_dirty_nodes(&mut arena, &mut writer).unwrap_err(),
        StoreError::FileTooLarge
    );
    assert!(arena.get(a).needs_persistence());
}

#[test]
fn results_name_each_vector_once_and_never_the_root() {
    let results = vec![
        (VectorId::Int(3), 0.9f32),
        (VectorId::Int(-1), 0.8),
        (VectorId::Str("a".to_string()), 0.7),
        (VectorId::Int(3), 0.6),
        (VectorId::Str("a".to_string()), 0.5),
        (VectorId::Str("3".to_string()), 0.4),
        (VectorId::Int(-1), 0.3),
    ];
    let unique = cosdata::vector_store::remove_duplicates_and_filter(Some(results)).unwrap();
    assert_eq!(
        unique,
        vec![
            (VectorId::Int(3), 0.9),
            (VectorId::Str("a".to_string()), 0.7),
            (VectorId::Str("3".to_string()), 0.4),
        ]
    );
    assert_eq!(cosdata::vector_store::remove_duplicates_and_filter::<f32>(None), None);
    assert_eq!(
        cosdata::vector_store::remove_duplicates_and_filter::<u8>(Some(Vec::new())),
        Some(Vec::new())
    );
    assert!(VectorId::Int(3).same_as(&VectorId::Int(3).duplicate()));
    assert!(!VectorId::Int(3).same_as(&VectorId::Str("3".to_string())));
}

#[test]
fn a_walk_lists_the_neighbours_of_a_persisted_node() {
    let mut arena = NodeArena::new();
    let a = arena.insert(MergedNode::new(1, 0));
    let b = arena.insert(MergedNode::new(2, 0));
    arena.get_mut(b).set_prop_pending((9, 9));
    arena.add_ready_neighbor(a, LazyItem::from_item(b), 0.5f32.to_bits());
    arena.add_ready_neighbor(a, LazyItem::from_offset(4000), 0.25f32.to_bits());
    let mut writer = CustomBufferedWriter::new(0).unwrap();
    let offset = LazyItem::from_item(a).serialize(&mut arena, &mut writer).unwrap();
    let at_b = arena.offset_of(b).unwrap();
    let mut bytes = writer.flush();
    bytes.resize(4100, 0xff);
    // A record at 4000 for the neighbour that was on disk only.
    bytes[4000..4011].copy_from_slice(&[3, 0, 0, 0, 0, 0, 0, 0, 0, 0, 0]);

    let mut cache = NodeRegistry::new(8, bytes);
    assert_eq!(
        cosdata::vector_store::fetch_neighbors(&mut cache, offset).unwrap(),
        vec![(Some(at_b), 0.5f32.to_bits()), (Some(4000), 0.25f32.to_bits())]
    );
    assert!(cosdata::vector_store::fetch_neighbors(&mut cache, at_b).unwrap().is_empty());
    assert!(cosdata::vector_store::fetch_neighbors(&mut cache, u32::MAX).unwrap().is_empty());
    assert_eq!(
        cosdata::vector_store::fetch_neighbors(&mut cache, 4090).unwrap_err(),
        LoadError::Truncated
    );
}
