use cosdata::models::identity_collections::{IdentityMap, IdentityMapKey, IdentitySet};
use cosdata::models::lazy_load::{
    EagerLazyItem, EagerLazyItemSet, LazyItem, LazyItemId, LazyItemMap, LazyItemRef, LazyItemSet,
    SyncPersist,
};
use cosdata::models::node_arena::NodeArena;
use cosdata::models::serializer::CustomSerialize;
use cosdata::models::text::decimal_string;
use cosdata::models::types::{
    MergedNode, Neighbour, NodeProp, PropState, Storage, VectorId,
};
use std::sync::Arc;

fn prop(id: VectorId, location: Option<(u32, u32)>) -> Arc<NodeProp> {
    Arc::new(NodeProp {
        id,
        value: Arc::new(Storage::UnsignedByte { mag: 3, quant_vec: vec![1, 1, 1] }),
        location,
    })
}

fn node_for(id: VectorId) -> MergedNode {
    let mut node = MergedNode::new(0, 0);
    node.set_prop_ready(prop(id, None));
    node
}

#[test]
fn a_lazy_item_has_a_node_an_offset_or_both() {
    let mut arena = NodeArena::new();
    let item = LazyItem::new(MergedNode::new(1, 2), &mut arena);
    assert!(item.is_valid() && !item.is_invalid());
    assert_eq!(item.get_data(), Some(0));
    assert_eq!(item.get_offset(&arena), None);
    assert_eq!(item, LazyItem::from_item(0));
    assert_eq!(LazyItem::from_data(MergedNode::new(1, 2), &mut arena).get_data(), Some(1));

    let on_disk = LazyItem::from_offset(40);
    assert!(on_disk.is_valid());
    assert_eq!((on_disk.get_data(), on_disk.get_offset(&arena)), (None, Some(40)));

    let invalid = LazyItem::new_invalid();
    assert!(invalid.is_invalid() && !invalid.is_valid());
    assert_eq!((invalid.get_data(), invalid.get_offset(&arena)), (None, None));
}

#[test]
fn set_data_and_set_offset_keep_the_other_half() {
    let mut arena = NodeArena::new();
    let mut item = LazyItem::from_offset(40);
    item.set_data(MergedNode::new(5, 0), &mut arena);
    assert_eq!((item.get_data(), item.get_offset(&arena)), (Some(0), Some(40)));
    item.set_offset(Some(80), &mut arena);
    assert_eq!((item.get_data(), item.get_offset(&arena)), (Some(0), Some(80)));
    item.set_offset(None, &mut arena);
    assert_eq!(item, LazyItem::from_item(0));
    assert_eq!(item.get_offset(&arena), None);

    // An invalid item stays invalid, and nothing is put into the arena.
    let mut invalid = LazyItem::Invalid;
    invalid.set_data(MergedNode::new(6, 0), &mut arena);
    invalid.set_data(MergedNode::new(6, 0), &mut arena);
    invalid.set_offset(Some(3), &mut arena);
    assert!(invalid.is_invalid());
    assert_eq!(arena.len(), 1);

    // A valid item left with neither becomes invalid.
    let mut on_disk = LazyItem::from_offset(40);
    on_disk.set_offset(None, &mut arena);
    assert!(on_disk.is_invalid());
}

#[test]
fn the_offset_of_a_node_is_read_by_every_item_for_it() {
    let mut arena = NodeArena::new();
    let mut item = LazyItem::new(MergedNode::new(1, 0), &mut arena);
    let copy = item;
    let other = LazyItem::from_item(0);
    item.set_offset(Some(54), &mut arena);
    assert_eq!(item.get_offset(&arena), Some(54));
    assert_eq!(copy.get_offset(&arena), Some(54));
    assert_eq!(other.get_offset(&arena), Some(54));
    assert_eq!(copy.get_id(&arena), LazyItemId::Persist(54));
    assert_eq!(arena.offset_of(0), Some(54));
    item.set_offset(None, &mut arena);
    assert_eq!(copy.get_offset(&arena), None);
    assert!(matches!(copy.get_id(&arena), LazyItemId::Memory(_)));
}

#[test]
fn a_holder_becomes_valid_when_it_is_given_something() {
    let mut arena = NodeArena::new();
    let holder = LazyItemRef::new_invalid(&mut arena);
    assert!(holder.is_invalid(&arena) && !holder.is_valid(&arena));
    assert_eq!(holder.get_data(&arena), None);
    holder.set_offset(Some(12), &mut arena);
    assert!(holder.is_valid(&arena));
    assert_eq!(holder.get(&arena), LazyItem::from_offset(12));
    holder.set_data(MergedNode::new(1, 1), &mut arena);
    assert_eq!(holder.get_data(&arena), Some(0));
    assert_eq!(holder.get_offset(&arena), Some(12));
    holder.set_offset(None, &mut arena);
    assert_eq!(holder.get(&arena), LazyItem::from_item(0));

    let empty = LazyItemRef::new_invalid(&mut arena);
    empty.set_offset(None, &mut arena);
    assert!(empty.is_invalid(&arena));
    empty.set_data(MergedNode::new(2, 1), &mut arena);
    assert_eq!(empty.get(&arena), LazyItem::from_item(1));

    let made = LazyItemRef::new(MergedNode::new(3, 1), &mut arena);
    assert_eq!(made.get_data(&arena), Some(2));
    let named = LazyItemRef::from_item(7, &mut arena);
    assert_eq!(named.get(&arena), LazyItem::from_item(7));
    let held = LazyItemRef::from_lazy(LazyItem::from_offset(9), &mut arena);
    assert_eq!(held.get(&arena), LazyItem::from_offset(9));
    // Each of them is a cell of its own.
    assert_eq!(holder.get(&arena), LazyItem::from_item(0));
    assert_eq!(empty.get(&arena), LazyItem::from_item(1));
}

#[test]
fn every_copy_of_a_holder_reads_what_was_stored_through_one() {
    let mut arena = NodeArena::new();
    let holder = LazyItemRef::new(MergedNode::new(1, 0), &mut arena);
    let copy = holder;
    let apart = LazyItemRef::new(MergedNode::new(2, 0), &mut arena);
    assert_eq!(copy.get_data(&arena), Some(0));

    holder.set_data(MergedNode::new(3, 0), &mut arena);
    assert_eq!(holder.get_data(&arena), Some(2));
    assert_eq!(copy.get_data(&arena), Some(2));
    assert_eq!(arena.get(copy.get_data(&arena).unwrap()).version_id, 3);
    assert_eq!(apart.get_data(&arena), Some(1));

    copy.set_offset(Some(81), &mut arena);
    assert_eq!(holder.get_offset(&arena), Some(81));
    assert_eq!(holder.get(&arena), copy.get(&arena));
    assert_eq!(apart.get_offset(&arena), None);
}

#[test]
fn a_write_through_the_holder_of_a_link_reaches_the_node() {
    let mut arena = NodeArena::new();
    let node = arena.insert(MergedNode::new(1, 0));
    let parent = LazyItemRef::parent_of(node);
    let child = LazyItemRef::child_of(node);
    assert!(parent.is_invalid(&arena) && child.is_invalid(&arena));

    parent.set_data(MergedNode::new(2, 1), &mut arena);
    assert_eq!(arena.get(node).get_parent(), LazyItem::from_item(1));
    assert!(arena.get(node).get_child().is_invalid());
    assert_eq!(LazyItemRef::parent_of(node).get_data(&arena), Some(1));

    child.set_offset(Some(27), &mut arena);
    assert_eq!(arena.get(node).get_child(), LazyItem::from_offset(27));
    assert_eq!(arena.get(node).get_parent(), LazyItem::from_item(1));

    // What the node is given is read through the holders of its links.
    arena.get_mut(node).set_parent(LazyItem::from_offset(5));
    assert_eq!(parent.get(&arena), LazyItem::from_offset(5));

    // A holder of a link of a node that is not there reads as invalid.
    assert!(LazyItemRef::parent_of(9).is_invalid(&arena));
}

#[test]
fn the_identity_is_the_offset_or_the_hash_of_the_property() {
    let mut arena = NodeArena::new();
    let a = LazyItem::new(node_for(VectorId::Int(1)), &mut arena);
    let same = LazyItem::new(node_for(VectorId::Int(1)), &mut arena);
    let other = LazyItem::new(node_for(VectorId::Int(-1)), &mut arena);
    let text = LazyItem::new(node_for(VectorId::Str("1".to_string())), &mut arena);
    let pending = LazyItem::new(MergedNode::new(0, 0), &mut arena);

    let id = a.get_id(&arena);
    assert!(matches!(id, LazyItemId::Memory(_)));
    assert_eq!(id, LazyItemId::Memory(arena.get(0).get_id()));
    assert_eq!(same.get_id(&arena), id);
    assert_ne!(other.get_id(&arena), id);
    assert_ne!(text.get_id(&arena), id);
    assert_ne!(pending.get_id(&arena), id);

    assert_eq!(LazyItem::from_offset(40).get_id(&arena), LazyItemId::Persist(40));
    assert_eq!(LazyItem::Invalid.get_id(&arena), LazyItemId::Persist(u32::MAX));
    assert_eq!(LazyItem::from_item(99).get_id(&arena), LazyItemId::Persist(u32::MAX));
    assert_eq!(EagerLazyItem(5, a).get_id(&arena), id);
    assert_eq!(Neighbour { node: a, cosine_similarity: 5 }.get_id(&arena), id);

    // Once the node is written its offset is its identity.
    let mut writer = cosdata::models::custom_buffered_writer::CustomBufferedWriter::new(0).unwrap();
    writer.write(&[0; 3]).unwrap();
    a.serialize(&mut arena, &mut writer).unwrap();
    assert_eq!(a.get_id(&arena), LazyItemId::Persist(3));
    assert_eq!(a.get_offset(&arena), Some(3));
    assert_eq!(arena.offset_of(0), Some(3));
    assert_eq!(same.get_id(&arena), id);
}

#[test]
fn the_identity_changes_with_the_property() {
    let mut node = MergedNode::new(1, 1);
    let pending = node.get_id();
    node.set_prop_pending((1, 0));
    assert_ne!(node.get_id(), pending);
    node.set_prop_ready(prop(VectorId::Str("a".to_string()), None));
    let ready = node.get_id();
    node.set_prop_ready(prop(VectorId::Str("a".to_string()), Some((5, 5))));
    assert_eq!(node.get_id(), ready);
    node.set_prop_ready(prop(VectorId::Str("b".to_string()), None));
    assert_ne!(node.get_id(), ready);
}

#[test]
fn an_identity_set_keeps_one_entry_per_identity_in_insertion_order() {
    let mut set: IdentitySet<u32> = IdentitySet::new();
    assert!(set.is_empty());
    assert_eq!(set.insert(LazyItemId::Persist(3), 30), None);
    assert_eq!(set.insert(LazyItemId::Memory(3), 31), None);
    assert_eq!(set.insert(LazyItemId::Persist(1), 10), None);
    assert_eq!(set.insert(LazyItemId::Persist(3), 33), Some(30));
    assert_eq!(set.len(), 3);
    assert_eq!(set.iter(), vec![33, 31, 10]);
    assert!(set.contains(LazyItemId::Memory(3)));
    assert!(!set.contains(LazyItemId::Memory(1)));
    assert_eq!(set.clone().iter(), set.iter());
}

#[test]
fn an_identity_map_keeps_one_entry_per_key_in_insertion_order() {
    let mut map: IdentityMap<u32> = IdentityMap::new();
    assert!(map.is_empty());
    assert_eq!(map.insert(IdentityMapKey::String("a".to_string()), 1), None);
    assert_eq!(map.insert(IdentityMapKey::Int(0), 2), None);
    assert_eq!(map.insert(IdentityMapKey::String("b".to_string()), 3), None);
    assert_eq!(map.insert(IdentityMapKey::String("a".to_string()), 4), Some(1));
    assert_eq!(map.insert(IdentityMapKey::Int(0), 5), Some(2));
    assert_eq!(map.len(), 3);
    let values: Vec<u32> = (0..3).map(|i| map.get(i).1).collect();
    assert_eq!(values, vec![4, 5, 3]);
    assert!(map.get(0).0.same_as(&IdentityMapKey::String("a".to_string())));
    assert!(!map.get(0).0.same_as(&IdentityMapKey::Int(0)));
    assert!(map.get(1).0.clone().same_as(&IdentityMapKey::Int(0)));
    assert_eq!(map.clone().len(), 3);
}

#[test]
fn sets_of_lazy_items_collapse_items_of_one_identity() {
    let mut arena = NodeArena::new();
    let a = LazyItem::new(node_for(VectorId::Int(1)), &mut arena);
    let b = LazyItem::new(node_for(VectorId::Int(2)), &mut arena);
    let a_again = LazyItem::new(node_for(VectorId::Int(1)), &mut arena);

    let mut set = LazyItemSet::new();
    assert!(set.is_empty());
    set.insert(a, &arena);
    set.insert(b, &arena);
    set.insert(a_again, &arena);
    set.insert(LazyItem::from_offset(9), &arena);
    assert_eq!(set.len(), 3);
    assert_eq!(set.iter(), vec![a_again, b, LazyItem::from_offset(9)]);

    let mut eager = EagerLazyItemSet::new();
    assert!(eager.is_empty());
    eager.insert(EagerLazyItem(1, a), &arena);
    eager.insert(EagerLazyItem(2, b), &arena);
    eager.insert(EagerLazyItem(3, a), &arena);
    assert_eq!(eager.len(), 2);
    assert_eq!(eager.iter(), vec![EagerLazyItem(3, a), EagerLazyItem(2, b)]);

    let mut map = LazyItemMap::new();
    assert!(map.is_empty());
    map.insert(IdentityMapKey::Int(1), a);
    map.insert(IdentityMapKey::Int(1), b);
    assert_eq!(map.len(), 1);
    assert_eq!(map.items.get(0).1, b);
}

#[test]
fn a_new_node_has_no_edges_and_is_yet_to_be_written() {
    let node = MergedNode::new(7, 3);
    assert_eq!((node.version_id, node.hnsw_level), (7, 3));
    assert!(matches!(node.get_prop(), PropState::Pending((0, 0))));
    assert_eq!(node.get_prop_location(), Some((0, 0)));
    assert!(node.get_neighbors().is_empty());
    assert!(node.get_versions().is_empty());
    assert!(node.get_parent().is_invalid());
    assert!(node.get_child().is_invalid());
    assert!(node.needs_persistence());
}

#[test]
fn the_graph_operations_change_what_they_name() {
    let mut arena = NodeArena::new();
    let a = LazyItem::new(node_for(VectorId::Int(1)), &mut arena);
    let b = LazyItem::new(node_for(VectorId::Int(2)), &mut arena);
    let mut node = MergedNode::new(1, 0);

    node.set_parent(a);
    node.set_child(b);
    assert_eq!(node.get_parent(), a);
    assert_eq!(node.get_child(), b);

    node.add_ready_neighbor(a, 10, &arena);
    node.add_ready_neighbors(vec![(b, 20), (a, 30)], &arena);
    assert_eq!(
        node.get_neighbors().iter(),
        vec![EagerLazyItem(30, a), EagerLazyItem(20, b)]
    );

    let old = arena.insert(MergedNode::new(4, 0));
    let older = arena.insert(MergedNode::new(3, 0));
    node.add_version(old, &arena);
    node.add_version(older, &arena);
    node.add_version(old, &arena);
    assert_eq!(node.get_versions().len(), 2);
    let (key, item) = node.get_versions().items.get(0);
    assert!(key.same_as(&IdentityMapKey::Int(4)));
    assert_eq!(item, LazyItem::from_item(old));

    node.set_persistence(false);
    assert!(!node.needs_persistence());
    node.set_persistence(true);
    assert!(node.needs_persistence());
}

#[test]
fn the_property_is_ready_or_pending() {
    let mut node = MergedNode::new(1, 0);
    node.set_prop_ready(prop(VectorId::Int(4), None));
    assert_eq!(node.get_prop_location(), None);
    assert!(matches!(node.get_prop(), PropState::Ready(p) if p.id == VectorId::Int(4)));
    node.set_prop_ready(prop(VectorId::Int(4), Some((8, 16))));
    assert_eq!(node.get_prop_location(), Some((8, 16)));
    node.set_prop_pending((1, 2));
    assert!(matches!(node.get_prop(), PropState::Pending((1, 2))));
    node.set_prop_location((3, 4));
    assert!(matches!(node.get_prop(), PropState::Pending((3, 4))));
    assert_eq!(node.get_prop_location(), Some((3, 4)));
}

#[test]
fn a_ready_property_without_a_place_is_written_as_absent() {
    let mut arena = NodeArena::new();
    let node = node_for(VectorId::Int(4));
    let mut writer = cosdata::models::custom_buffered_writer::CustomBufferedWriter::new(0).unwrap();
    node.serialize(&mut arena, &mut writer).unwrap();
    assert_eq!(&writer.flush()[3..11], &[0xff, 0xff, 0xff, 0xff, 0, 0, 0, 0]);
}

#[test]
fn the_arena_edits_nodes_in_place() {
    let mut arena = NodeArena::new();
    let a = arena.insert(node_for(VectorId::Int(1)));
    let b = arena.insert(node_for(VectorId::Int(2)));
    assert_eq!((a, b, arena.len()), (0, 1, 2));
    arena.add_ready_neighbor(a, LazyItem::from_item(b), 77);
    arena.add_ready_neighbor(a, LazyItem::from_item(b), 78);
    assert_eq!(
        arena.get(a).get_neighbors().iter(),
        vec![EagerLazyItem(78, LazyItem::from_item(b))]
    );
    arena.add_version(a, b);
    assert_eq!(arena.get(a).get_versions().len(), 1);
    arena.get_mut(b).set_prop_pending((1, 1));
    assert_eq!(arena.get(b).get_prop_location(), Some((1, 1)));
    let c = arena.insert_persisted(MergedNode::new(1, 1), 500);
    assert_eq!(arena.offset_of(c), Some(500));
    assert_eq!(arena.lazy_offset(&LazyItem::from_item(c)), Some(500));
    assert_eq!(arena.lazy_offset(&LazyItem::from_item(a)), None);
    assert_eq!(arena.lazy_offset(&LazyItem::from_offset(3)), Some(3));
    assert_eq!(arena.lazy_offset(&LazyItem::Invalid), None);
}

#[test]
fn numbers_are_rendered_in_decimal() {
    assert_eq!(decimal_string(0), "0");
    assert_eq!(decimal_string(9), "9");
    assert_eq!(decimal_string(10), "10");
    assert_eq!(decimal_string(1234567890), "1234567890");
    assert_eq!(decimal_string(u64::MAX), "18446744073709551615");
    assert_eq!(VectorId::Int(0).to_string(), "0");
    assert_eq!(VectorId::Int(-1).to_string(), "-1");
    assert_eq!(VectorId::Int(i32::MIN).to_string(), "-2147483648");
    assert_eq!(VectorId::Int(i32::MAX).to_string(), "2147483647");
    assert_eq!(VectorId::Str("query".to_string()).to_string(), "query");
}

#[test]
fn a_node_is_described_field_by_field() {
    let mut arena = NodeArena::new();
    let mut node = MergedNode::new(12, 3);
    assert_eq!(
        node.to_string(),
        "MergedNode {\n  version_id: 12,\n  hnsw_level: 3,\n  prop: Pending\n  \
         neighbors: 0 items,\n  parent: Invalid\n  child: Invalid\n  versions: 0 items,\n  \
         persist_flag: true\n}"
    );
    node.set_prop_ready(prop(VectorId::Int(-5), None));
    node.set_parent(LazyItem::from_offset(1));
    node.add_ready_neighbor(LazyItem::from_offset(2), 0, &arena);
    let version = arena.insert(MergedNode::new(1, 1));
    node.add_version(version, &arena);
    node.set_persistence(false);
    assert_eq!(
        node.to_string(),
        "MergedNode {\n  version_id: 12,\n  hnsw_level: 3,\n  prop: Ready { id: -5 }\n  \
         neighbors: 1 items,\n  parent: Valid\n  child: Invalid\n  versions: 1 items,\n  \
         persist_flag: false\n}"
    );
}
