use cosdata::models::cache_loader::NodeRegistry;
use cosdata::models::common::{LoadError, StoreError};
use cosdata::models::custom_buffered_writer::{CustomBufferedWriter, MAX_FILE_LEN};
use cosdata::models::identity_collections::IdentityMapKey;
use cosdata::models::lazy_load::{
    EagerLazyItem, EagerLazyItemSet, LazyItem, LazyItemId, LazyItemMap, LazyItemRef, LazyItemSet,
    CHUNK_SIZE,
};
use cosdata::models::node_arena::NodeArena;
use cosdata::models::serializer::CustomSerialize;
use cosdata::models::types::MergedNode;

const ABSENT: [u8; 4] = [0xff, 0xff, 0xff, 0xff];

fn u32_at(bytes: &[u8], at: usize) -> u32 {
    u32::from_le_bytes([bytes[at], bytes[at + 1], bytes[at + 2], bytes[at + 3]])
}

fn read_key(bytes: &[u8], offset: u32) -> Result<IdentityMapKey, LoadError> {
    NodeRegistry::new(0, bytes.to_vec()).load_item(offset)
}

fn node_with_prop(version: u16, level: u8, prop_offset: u32) -> MergedNode {
    let mut node = MergedNode::new(version, level);
    node.set_prop_location((prop_offset, 7));
    node
}

fn neighbors(arena: &mut NodeArena, count: u16) -> EagerLazyItemSet {
    let mut set = EagerLazyItemSet::new();
    for i in 1..=count {
        let item = LazyItem::from_data(node_with_prop(i, 2, 100 + i as u32), arena);
        set.insert(EagerLazyItem((i as f32 / 16.0).to_bits(), item), arena);
    }
    set
}

#[test]
fn int_key_is_four_little_endian_bytes() {
    let mut writer = CustomBufferedWriter::new(0).unwrap();
    let key = IdentityMapKey::Int(0x0102_0304);
    let offset = key.serialize(&mut NodeArena::new(), &mut writer).unwrap();
    assert_eq!(offset, 0);
    let bytes = writer.flush();
    assert_eq!(bytes, vec![4u8, 3, 2, 1]);
    match read_key(&bytes, 0).unwrap() {
        IdentityMapKey::Int(i) => assert_eq!(i, 0x0102_0304),
        IdentityMapKey::String(_) => panic!("expected an integer key"),
    }
}

#[test]
fn string_key_is_marked_length_and_utf8() {
    let mut writer = CustomBufferedWriter::new(0).unwrap();
    writer.write(&[9, 9, 9]).unwrap();
    let key = IdentityMapKey::String("h\u{e9}llo".to_string());
    let offset = key.serialize(&mut NodeArena::new(), &mut writer).unwrap();
    assert_eq!(offset, 3);
    let bytes = writer.flush();
    assert_eq!(
        bytes,
        vec![9u8, 9, 9, 6, 0, 0, 0x80, b'h', 0xc3, 0xa9, b'l', b'l', b'o']
    );
    match read_key(&bytes, 3).unwrap() {
        IdentityMapKey::String(s) => assert_eq!(s, "h\u{e9}llo"),
        IdentityMapKey::Int(_) => panic!("expected a string key"),
    }
}

#[test]
fn empty_string_key_round_trips() {
    let key = IdentityMapKey::String(String::new());
    assert_eq!(key.encode(), vec![0u8, 0, 0, 0x80]);
    match read_key(&key.encode(), 0).unwrap() {
        IdentityMapKey::String(s) => assert_eq!(s, ""),
        IdentityMapKey::Int(_) => panic!("expected a string key"),
    }
}

#[test]
fn int_key_with_the_marker_bit_reads_as_a_string_head() {
    let bytes = IdentityMapKey::Int(0x8000_0000).encode();
    assert_eq!(bytes, vec![0u8, 0, 0, 0x80]);
    assert!(matches!(
        read_key(&bytes, 0),
        Ok(IdentityMapKey::String(_))
    ));
}

#[test]
fn key_errors() {
    assert_eq!(
        read_key(&[1, 2, 3, 4], 4).unwrap_err(),
        LoadError::Corrupt
    );
    assert_eq!(
        read_key(&[1, 2, 3, 4], u32::MAX).unwrap_err(),
        LoadError::Corrupt
    );
    assert_eq!(
        read_key(&[1, 2, 3, 4], 2).unwrap_err(),
        LoadError::Truncated
    );
    // A string of three bytes of which two are there.
    assert_eq!(
        read_key(&[3, 0, 0, 0x80, b'a', b'b'], 0).unwrap_err(),
        LoadError::Truncated
    );
    // Two bytes that are not UTF-8.
    assert_eq!(
        read_key(&[2, 0, 0, 0x80, 0xff, 0xfe], 0).unwrap_err(),
        LoadError::Corrupt
    );
}

#[test]
fn node_record_without_edges_is_27_bytes() {
    let mut arena = NodeArena::new();
    let node = MergedNode::new(1, 2);
    let mut writer = CustomBufferedWriter::new(0).unwrap();
    let offset = node.serialize(&mut arena, &mut writer).unwrap();
    assert_eq!(offset, 0);
    let mut expected = vec![1u8, 0, 2, 0, 0, 0, 0, 0, 0, 0, 0];
    for _ in 0..4 {
        expected.extend_from_slice(&ABSENT);
    }
    assert_eq!(writer.flush(), expected);
}

#[test]
fn node_record_holds_version_level_and_property() {
    let mut arena = NodeArena::new();
    let mut node = MergedNode::new(0x0201, 9);
    node.set_prop_location((0x0a0b_0c0d, 0x0000_0105));
    let mut writer = CustomBufferedWriter::new(0).unwrap();
    writer.write(&[0u8; 5]).unwrap();
    let offset = node.serialize(&mut arena, &mut writer).unwrap();
    assert_eq!(offset, 5);
    let bytes = writer.flush();
    assert_eq!(
        &bytes[5..16],
        &[1u8, 2, 9, 0x0d, 0x0c, 0x0b, 0x0a, 5, 1, 0, 0]
    );
    assert_eq!(bytes.len(), 32);
}

#[test]
fn parent_and_child_are_written_behind_the_record() {
    let mut arena = NodeArena::new();
    let mut node = MergedNode::new(1, 2);
    node.set_parent(LazyItem::new(MergedNode::new(2, 3), &mut arena));
    node.set_child(LazyItem::new(MergedNode::new(3, 1), &mut arena));
    let mut writer = CustomBufferedWriter::new(0).unwrap();
    assert_eq!(node.serialize(&mut arena, &mut writer).unwrap(), 0);
    let bytes = writer.flush();
    assert_eq!(bytes.len(), 81);
    assert_eq!(u32_at(&bytes, 11), 27);
    assert_eq!(u32_at(&bytes, 15), 54);
    assert_eq!(u32_at(&bytes, 19), u32::MAX);
    assert_eq!(u32_at(&bytes, 23), u32::MAX);
    assert_eq!(&bytes[27..30], &[2u8, 0, 3]);
    assert_eq!(&bytes[54..57], &[3u8, 0, 1]);
    assert_eq!(arena.offset_of(0), Some(27));
    assert_eq!(arena.offset_of(1), Some(54));
}

#[test]
fn an_item_with_an_offset_writes_only_the_offset() {
    let mut arena = NodeArena::new();
    let mut node = MergedNode::new(1, 2);
    node.set_parent(LazyItem::from_offset(4711));
    let mut writer = CustomBufferedWriter::new(0).unwrap();
    node.serialize(&mut arena, &mut writer).unwrap();
    let bytes = writer.flush();
    assert_eq!(bytes.len(), 27);
    assert_eq!(u32_at(&bytes, 11), 4711);
}

#[test]
fn invalid_lazy_item_is_the_absent_offset() {
    let mut arena = NodeArena::new();
    let mut writer = CustomBufferedWriter::new(0).unwrap();
    let offset = LazyItem::new_invalid().serialize(&mut arena, &mut writer).unwrap();
    assert_eq!(offset, u32::MAX);
    let holder = LazyItemRef::new_invalid(&mut arena);
    assert_eq!(holder.serialize(&mut arena, &mut writer).unwrap(), u32::MAX);
    assert!(writer.flush().is_empty());

    let mut cache = NodeRegistry::new(8, vec![0u8; 64]);
    assert_eq!(cache.load_item::<LazyItem>(u32::MAX).unwrap(), LazyItem::Invalid);
    let holder = cache.load_item::<LazyItemRef>(u32::MAX).unwrap();
    assert!(holder.is_invalid(&cache.arena));
}

#[test]
fn empty_collections_are_the_absent_offset() {
    let mut arena = NodeArena::new();
    let mut writer = CustomBufferedWriter::new(0).unwrap();
    assert_eq!(EagerLazyItemSet::new().serialize(&mut arena, &mut writer).unwrap(), u32::MAX);
    assert_eq!(LazyItemSet::new().serialize(&mut arena, &mut writer).unwrap(), u32::MAX);
    assert_eq!(LazyItemMap::new().serialize(&mut arena, &mut writer).unwrap(), u32::MAX);
    assert!(writer.flush().is_empty());

    let mut cache = NodeRegistry::new(8, Vec::new());
    assert!(cache.load_item::<EagerLazyItemSet>(u32::MAX).unwrap().is_empty());
    assert!(cache.load_item::<LazyItemSet>(u32::MAX).unwrap().is_empty());
    assert!(cache.load_item::<LazyItemMap>(u32::MAX).unwrap().is_empty());
}

#[test]
fn twelve_neighbors_fill_three_chunks() {
    assert_eq!(CHUNK_SIZE, 5);
    let mut arena = NodeArena::new();
    let set = neighbors(&mut arena, 12);
    assert_eq!(set.len(), 12);
    let mut writer = CustomBufferedWriter::new(0).unwrap();
    assert_eq!(set.serialize(&mut arena, &mut writer).unwrap(), 0);
    let bytes = writer.flush();

    // An entry is a similarity, an offset and the record of the node.
    let entry = 4 + 4 + 27;
    let full_chunk = 24 + 5 * entry;
    assert_eq!(bytes.len(), 2 * full_chunk + 24 + 2 * entry);
    for chunk in 0..2 {
        let at = chunk * full_chunk;
        for slot in 0..5 {
            assert_eq!(u32_at(&bytes, at + 4 * slot) as usize, at + 24 + slot * entry);
        }
        assert_eq!(u32_at(&bytes, at + 20) as usize, at + full_chunk);
    }
    let last = 2 * full_chunk;
    assert_eq!(u32_at(&bytes, last) as usize, last + 24);
    assert_eq!(u32_at(&bytes, last + 4) as usize, last + 24 + entry);
    assert_eq!(u32_at(&bytes, last + 8), u32::MAX);
    assert_eq!(u32_at(&bytes, last + 12), u32::MAX);
    assert_eq!(u32_at(&bytes, last + 16), u32::MAX);
    assert_eq!(u32_at(&bytes, last + 20), u32::MAX);
    // The first entry: the similarity, then the offset of the record behind it.
    assert_eq!(u32_at(&bytes, 24), (1.0f32 / 16.0).to_bits());
    assert_eq!(u32_at(&bytes, 28), 32);

    let mut cache = NodeRegistry::new(16, bytes);
    let loaded = cache.load_item::<EagerLazyItemSet>(0).unwrap();
    assert_eq!(loaded.len(), 12);
    for (i, (written, read)) in set.iter().into_iter().zip(loaded.iter()).enumerate() {
        assert_eq!(written.0, read.0);
        assert_eq!(f32::from_bits(read.0), (i as f32 + 1.0) / 16.0);
        let node = cache.node(read.1.get_data().unwrap());
        assert_eq!(node.version_id as usize, i + 1);
        assert_eq!(node.get_prop_location(), Some((101 + i as u32, 7)));
        assert_eq!(read.1.get_offset(&cache.arena), written.1.get_offset(&arena));
        assert_eq!(read.1.get_id(&cache.arena), written.1.get_id(&arena));
    }
}

#[test]
fn six_neighbors_fill_two_chunks() {
    let mut arena = NodeArena::new();
    let set = neighbors(&mut arena, 6);
    let mut node = MergedNode::new(9, 0);
    for item in set.iter() {
        node.add_ready_neighbor(item.1, item.0, &arena);
    }
    let mut writer = CustomBufferedWriter::new(0).unwrap();
    node.serialize(&mut arena, &mut writer).unwrap();
    let bytes = writer.flush();
    assert_eq!(u32_at(&bytes, 19), 27);
    let entry = 4 + 4 + 27;
    let second = 27 + 24 + 5 * entry;
    assert_eq!(u32_at(&bytes, 27 + 20) as usize, second);
    assert_eq!(u32_at(&bytes, second) as usize, second + 24);
    assert_eq!(u32_at(&bytes, second + 4), u32::MAX);
    assert_eq!(u32_at(&bytes, second + 20), u32::MAX);
    assert_eq!(bytes.len(), second + 24 + entry);

    let mut cache = NodeRegistry::new(16, bytes);
    let loaded = cache.load_item::<MergedNode>(0).unwrap();
    let versions: Vec<u16> = loaded
        .get_neighbors()
        .iter()
        .into_iter()
        .map(|n| cache.node(n.1.get_data().unwrap()).version_id)
        .collect();
    assert_eq!(versions, vec![1, 2, 3, 4, 5, 6]);
}

#[test]
fn neighbors_round_trip_in_insertion_order() {
    let mut arena = NodeArena::new();
    let mut node = MergedNode::new(1, 2);
    let first = LazyItem::from_data(node_with_prop(2, 1, 10), &mut arena);
    let second = LazyItem::from_data(node_with_prop(3, 1, 20), &mut arena);
    node.add_ready_neighbor(first, 0.9f32.to_bits(), &arena);
    node.add_ready_neighbor(second, 0.8f32.to_bits(), &arena);
    let mut writer = CustomBufferedWriter::new(0).unwrap();
    let offset = node.serialize(&mut arena, &mut writer).unwrap();
    let mut cache = NodeRegistry::new(16, writer.flush());
    let loaded = cache.load_item::<MergedNode>(offset).unwrap();
    let pairs: Vec<(u16, u8, f32)> = loaded
        .get_neighbors()
        .iter()
        .into_iter()
        .map(|n| {
            let node = cache.node(n.1.get_data().unwrap());
            (node.version_id, node.hnsw_level, f32::from_bits(n.0))
        })
        .collect();
    assert_eq!(pairs, vec![(2, 1, 0.9), (3, 1, 0.8)]);
}

#[test]
fn versions_round_trip_under_their_keys() {
    let mut arena = NodeArena::new();
    let mut map = LazyItemMap::new();
    map.insert(
        IdentityMapKey::String("main".to_string()),
        LazyItem::from_data(MergedNode::new(5, 0), &mut arena),
    );
    map.insert(IdentityMapKey::Int(7), LazyItem::from_data(MergedNode::new(6, 0), &mut arena));
    let mut writer = CustomBufferedWriter::new(0).unwrap();
    let offset = map.serialize(&mut arena, &mut writer).unwrap();
    let bytes = writer.flush();
    // Head, then the key `main`, the offset of the node and the node.
    assert_eq!(u32_at(&bytes, 0), 24);
    assert_eq!(&bytes[24..32], &[4u8, 0, 0, 0x80, b'm', b'a', b'i', b'n']);
    assert_eq!(u32_at(&bytes, 32), 36);
    assert_eq!(u32_at(&bytes, 4), 63);
    assert_eq!(u32_at(&bytes, 63), 7);
    assert_eq!(u32_at(&bytes, 67), 71);

    let mut cache = NodeRegistry::new(16, bytes);
    let loaded = cache.load_item::<LazyItemMap>(offset).unwrap();
    assert_eq!(loaded.len(), 2);
    let (key, item) = loaded.items.get(0);
    assert!(key.same_as(&IdentityMapKey::String("main".to_string())));
    assert_eq!(cache.node(item.get_data().unwrap()).version_id, 5);
    let (key, item) = loaded.items.get(1);
    assert!(key.same_as(&IdentityMapKey::Int(7)));
    assert_eq!(cache.node(item.get_data().unwrap()).version_id, 6);
}

#[test]
fn a_set_of_lazy_items_holds_offsets_in_its_slots() {
    let mut arena = NodeArena::new();
    let mut set = LazyItemSet::new();
    set.insert(LazyItem::from_data(node_with_prop(1, 0, 1), &mut arena), &arena);
    set.insert(LazyItem::from_data(node_with_prop(2, 0, 2), &mut arena), &arena);
    let mut writer = CustomBufferedWriter::new(0).unwrap();
    assert_eq!(set.serialize(&mut arena, &mut writer).unwrap(), 0);
    let bytes = writer.flush();
    assert_eq!(bytes.len(), 24 + 27 + 27);
    assert_eq!(u32_at(&bytes, 0), 24);
    assert_eq!(u32_at(&bytes, 4), 51);
    assert_eq!(u32_at(&bytes, 8), u32::MAX);
    assert_eq!(u32_at(&bytes, 20), u32::MAX);
    let mut cache = NodeRegistry::new(16, bytes);
    let loaded = cache.load_item::<LazyItemSet>(0).unwrap();
    let ids: Vec<LazyItemId> = loaded.items.entries.iter().map(|e| e.0).collect();
    assert_eq!(ids, vec![LazyItemId::Persist(24), LazyItemId::Persist(51)]);
}

#[test]
fn the_absent_offset_is_never_the_offset_of_a_record() {
    let mut arena = NodeArena::new();
    let mut writer = CustomBufferedWriter::new(MAX_FILE_LEN - 26).unwrap();
    assert_eq!(
        MergedNode::new(1, 2).serialize(&mut arena, &mut writer).unwrap_err(),
        StoreError::FileTooLarge
    );
    let mut writer = CustomBufferedWriter::new(MAX_FILE_LEN - 27).unwrap();
    let offset = MergedNode::new(1, 2).serialize(&mut arena, &mut writer).unwrap();
    assert_eq!(offset, u32::MAX - 27);
    assert_eq!(writer.flush().len(), 27);

    let mut cache = NodeRegistry::new(8, vec![0xffu8; 64]);
    assert_eq!(cache.load_item::<MergedNode>(u32::MAX).unwrap_err(), LoadError::Corrupt);
}

#[test]
fn a_node_without_edges_is_written_again_byte_for_byte() {
    let mut arena = NodeArena::new();
    let node = node_with_prop(3, 4, 99);
    let mut writer = CustomBufferedWriter::new(0).unwrap();
    let offset = node.serialize(&mut arena, &mut writer).unwrap();
    let first = writer.flush();
    let mut cache = NodeRegistry::new(8, first.clone());
    let loaded = cache.load_item::<MergedNode>(offset).unwrap();
    let mut again = CustomBufferedWriter::new(0).unwrap();
    loaded.serialize(&mut cache.arena, &mut again).unwrap();
    assert_eq!(again.flush(), first);
}

#[test]
fn a_loaded_node_keeps_the_offsets_of_its_links_when_written_again() {
    let mut arena = NodeArena::new();
    let mut node = MergedNode::new(1, 2);
    node.set_parent(LazyItem::new(MergedNode::new(2, 3), &mut arena));
    let mut writer = CustomBufferedWriter::new(0).unwrap();
    let offset = node.serialize(&mut arena, &mut writer).unwrap();
    let first = writer.flush();
    let mut cache = NodeRegistry::new(8, first.clone());
    let loaded = cache.load_item::<MergedNode>(offset).unwrap();
    let mut again = CustomBufferedWriter::new(0).unwrap();
    loaded.serialize(&mut cache.arena, &mut again).unwrap();
    let second = again.flush();
    assert_eq!(second.len(), 27);
    assert_eq!(&second[..19], &first[..19]);
}

#[test]
fn offsets_are_positions_in_the_file() {
    let mut arena = NodeArena::new();
    let mut node = MergedNode::new(7, 1);
    node.set_parent(LazyItem::new(MergedNode::new(8, 2), &mut arena));
    // The file holds 100 bytes that were flushed before.
    let mut file = vec![0xabu8; 100];
    let mut writer = CustomBufferedWriter::new(100).unwrap();
    let offset = node.serialize(&mut arena, &mut writer).unwrap();
    assert_eq!(offset, 100);
    file.extend_from_slice(&writer.flush());
    assert_eq!(u32_at(&file, 111), 127);

    let mut cache = NodeRegistry::new(8, file);
    let loaded = cache.load_item::<MergedNode>(offset).unwrap();
    assert_eq!(loaded.version_id, 7);
    let parent = loaded.get_parent();
    assert_eq!(parent.get_offset(&cache.arena), Some(127));
    assert_eq!(cache.node(parent.get_data().unwrap()).version_id, 8);
}
