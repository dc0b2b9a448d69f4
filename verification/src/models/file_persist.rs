//! What a commit writes: the properties into the property file, the nodes
//! into the index file of the new version.

use crate::models::common::StoreError;
use crate::models::custom_buffered_writer::{CustomBufferedWriter, MAX_FILE_LEN};
use crate::models::lazy_load::{LazyItem, SyncPersist};
use crate::models::node_arena::NodeArena;
use crate::models::serializer::CustomSerialize;
use crate::models::serializer::layout::{lazy_layout, Layout};
use crate::models::serializer::write::{lemma_written_nothing, lemma_written_twice, stored};
use crate::models::types::{FileOffset, Item, MergedNode, MergedNodeView, PropPersistRef, PropState};
use vstd::prelude::*;

verus! {

/// The property file as the store sees it: an append-only file of which
/// only the length matters here.
#[derive(Debug, Clone, Copy, PartialEq, Eq, Structural)]
pub struct PropFile {
    pub len: u64,
}

impl PropFile {
    /// The property file that holds `len` bytes.
    pub fn new(len: u64) -> (file: Self)
        ensures
            file.len == len,
    {
        PropFile { len }
    }

    /// Makes room for a payload of `length` bytes at the end of the file
    /// and returns where it goes. The file never grows past what an offset
    /// can address.
    pub fn append(&mut self, length: u32) -> (r: Result<PropPersistRef, StoreError>)
        ensures
            r is Ok <==> old(self).len + length <= MAX_FILE_LEN,
            r matches Ok(location) ==> location == (old(self).len as u32, length)
                && final(self).len == old(self).len + length,
            r matches Err(e) ==> e == StoreError::FileTooLarge && *final(self) == *old(self),
    {
        if self.len > MAX_FILE_LEN || length as u64 > MAX_FILE_LEN - self.len {
            return Err(StoreError::FileTooLarge);
        }
        let offset: u32 = self.len as u32;
        self.len = self.len + length as u64;
        Ok((offset, length))
    }
}

/// Makes room in the property file for the property of `node`, a payload
/// of `length` bytes, and records on the node where it goes. The property
/// of the node is pending there afterwards.
pub fn write_prop_to_file(node: &mut MergedNode, file: &mut PropFile, length: u32) -> (r: Result<
    PropPersistRef,
    StoreError,
>)
    ensures
        r is Ok <==> old(file).len + length <= MAX_FILE_LEN,
        r matches Ok(location) ==> {
            &&& location == (old(file).len as u32, length)
            &&& final(file).len == old(file).len + length
            &&& final(node)@ == (MergedNodeView {
                prop: PropState::Pending(location),
                ..old(node)@
            })
        },
        r matches Err(e) ==> e == StoreError::FileTooLarge && *final(file) == *old(file)
            && final(node)@ == old(node)@,
{
    match file.append(length) {
        Err(e) => Err(e),
        Ok(location) => {
            node.set_prop_location(location);
            Ok(location)
        },
    }
}

/// The nodes `items` written one after the other from `pos` on, each as a
/// lazy item does it: a node that has an offset is not written again.
pub open spec fn nodes_layout(
    nodes: Seq<MergedNodeView>,
    offsets: Seq<Option<FileOffset>>,
    items: Seq<Item>,
    pos: int,
) -> Layout
    decreases items.len(),
{
    if items.len() == 0 {
        Layout { bytes: Seq::empty(), offsets, value: u32::MAX }
    } else {
        let first = lazy_layout(
            nodes,
            offsets,
            LazyItem::Valid { data: Some(items[0]), offset: None, decay_counter: 0 },
            pos,
        );
        let rest = nodes_layout(nodes, first.offsets, items.drop_first(), pos + first.bytes.len());
        Layout { bytes: first.bytes + rest.bytes, offsets: rest.offsets, value: u32::MAX }
    }
}

/// Writes the nodes `items` at the cursor, one after the other, and
/// records the offset of each.
pub fn persist_nodes(
    arena: &mut NodeArena,
    items: &Vec<Item>,
    writer: &mut CustomBufferedWriter,
) -> (r: Result<(), StoreError>)
    requires
        old(arena).wf(),
        old(writer)@.wf(),
    ensures
        final(arena).wf(),
        final(arena).cells@ == old(arena).cells@,
        final(writer)@.wf(),
        final(arena)@.nodes == old(arena)@.nodes,
        ({
            let l = nodes_layout(
                old(arena)@.nodes,
                old(arena)@.offsets,
                items@,
                old(writer)@.position() as int,
            );
            &&& stored(
                r is Ok,
                l.bytes,
                l.offsets,
                old(writer)@,
                final(writer)@,
                final(arena)@.offsets,
            )
            &&& r matches Err(e) ==> e == StoreError::FileTooLarge
        }),
{
    let ghost w0 = writer@;
    let ghost nodes = arena@.nodes;
    let ghost total = nodes_layout(nodes, arena@.offsets, items@, w0.position() as int);
    let ghost mut done: Seq<u8> = Seq::empty();
    let n: usize = items.len();
    let mut i: usize = 0;
    proof {
        lemma_written_nothing(w0);
        assert(items@.subrange(0, n as int) =~= items@);
        assert(done + total.bytes =~= total.bytes);
    }
    while i < n
        invariant
            i <= n,
            n == items@.len(),
            arena.wf(),
            arena.cells@ == old(arena).cells@,
            w0.wf(),
            w0 == old(writer)@,
            nodes == old(arena)@.nodes,
            total == nodes_layout(nodes, old(arena)@.offsets, items@, w0.position() as int),
            writer@.wf(),
            arena@.nodes == nodes,
            writer@ == w0.written(done),
            w0.position() + done.len() <= MAX_FILE_LEN,
            ({
                let rest = nodes_layout(
                    nodes,
                    arena@.offsets,
                    items@.subrange(i as int, n as int),
                    (w0.position() + done.len()) as int,
                );
                &&& total.bytes == done + rest.bytes
                &&& total.offsets == rest.offsets
            }),
        decreases n - i,
    {
        let ghost left = items@.subrange(i as int, n as int);
        let ghost first = lazy_layout(
            nodes,
            arena@.offsets,
            LazyItem::Valid { data: Some(left[0]), offset: None, decay_counter: 0 },
            (w0.position() + done.len()) as int,
        );
        proof {
            assert(left[0] == items@[i as int]);
            assert(left.drop_first() =~= items@.subrange(i + 1, n as int));
        }
        let item = LazyItem::from_item(items[i]);
        match item.serialize(arena, writer) {
            Err(e) => {
                return Err(e);
            },
            Ok(_) => {},
        }
        proof {
            lemma_written_twice(w0, done, first.bytes);
            let rest = nodes_layout(
                nodes,
                first.offsets,
                left.drop_first(),
                (w0.position() + done.len() + first.bytes.len()) as int,
            );
            assert(done + (first.bytes + rest.bytes) =~= (done + first.bytes) + rest.bytes);
            done = done + first.bytes;
        }
        i = i + 1;
    }
    proof {
        assert(done + Seq::<u8>::empty() =~= done);
    }
    Ok(())
}

/// The nodes of `nodes` that are yet to be written, in the order of the
/// arena.
pub open spec fn dirty_items(nodes: Seq<MergedNodeView>) -> Seq<Item>
    decreases nodes.len(),
{
    if nodes.len() == 0 {
        Seq::empty()
    } else if nodes.last().persist_flag {
        dirty_items(nodes.drop_last()).push((nodes.len() - 1) as usize)
    } else {
        dirty_items(nodes.drop_last())
    }
}

/// `offsets` without the offsets of the nodes that are yet to be written.
pub open spec fn without_dirty(
    nodes: Seq<MergedNodeView>,
    offsets: Seq<Option<FileOffset>>,
) -> Seq<Option<FileOffset>> {
    Seq::new(
        offsets.len(),
        |h: int|
            if h < nodes.len() && nodes[h].persist_flag {
                None
            } else {
                offsets[h]
            },
    )
}

/// `nodes` with every node in step with the file.
pub open spec fn all_clean(nodes: Seq<MergedNodeView>) -> Seq<MergedNodeView> {
    Seq::new(nodes.len(), |h: int| MergedNodeView { persist_flag: false, ..nodes[h] })
}

/// Collects the nodes that are yet to be written and forgets their offsets.
pub fn take_dirty(arena: &mut NodeArena) -> (items: Vec<Item>)
    requires
        old(arena).wf(),
    ensures
        final(arena).wf(),
        final(arena).cells@ == old(arena).cells@,
        items@ == dirty_items(old(arena)@.nodes),
        final(arena)@.nodes == old(arena)@.nodes,
        final(arena)@.offsets == without_dirty(old(arena)@.nodes, old(arena)@.offsets),
{
    let mut items: Vec<Item> = Vec::new();
    let n: usize = arena.len();
    let mut h: usize = 0;
    proof {
        assert(arena@.nodes.subrange(0, 0) =~= Seq::<MergedNodeView>::empty());
    }
    while h < n
        invariant
            h <= n,
            n == arena@.nodes.len(),
            arena.wf(),
            arena.cells@ == old(arena).cells@,
            arena@.nodes == old(arena)@.nodes,
            arena@.offsets.len() == n,
            items@ == dirty_items(arena@.nodes.subrange(0, h as int)),
            forall|k: int|
                0 <= k < n ==> #[trigger] arena@.offsets[k] == if k < h
                    && arena@.nodes[k].persist_flag {
                    None
                } else {
                    old(arena)@.offsets[k]
                },
        decreases n - h,
    {
        let ghost upto = arena@.nodes.subrange(0, h + 1);
        proof {
            assert(upto.drop_last() =~= arena@.nodes.subrange(0, h as int));
            assert(upto.last() == arena@.nodes[h as int]);
        }
        if arena.get(h).needs_persistence() {
            items.push(h);
            arena.offsets[h] = None;
        }
        h = h + 1;
    }
    proof {
        assert(arena@.nodes.subrange(0, n as int) =~= arena@.nodes);
        assert(arena@.offsets =~= without_dirty(old(arena)@.nodes, old(arena)@.offsets));
    }
    items
}

/// Marks every node as in step with the file.
pub fn mark_clean(arena: &mut NodeArena)
    requires
        old(arena).wf(),
    ensures
        final(arena).wf(),
        final(arena).cells@ == old(arena).cells@,
        final(arena)@.nodes == all_clean(old(arena)@.nodes),
        final(arena)@.offsets == old(arena)@.offsets,
{
    let n: usize = arena.len();
    let mut h: usize = 0;
    while h < n
        invariant
            h <= n,
            n == arena@.nodes.len(),
            n == old(arena)@.nodes.len(),
            arena.wf(),
            arena.cells@ == old(arena).cells@,
            arena@.offsets == old(arena)@.offsets,
            forall|k: int|
                0 <= k < n ==> #[trigger] arena@.nodes[k] == if k < h {
                    MergedNodeView { persist_flag: false, ..old(arena)@.nodes[k] }
                } else {
                    old(arena)@.nodes[k]
                },
        decreases n - h,
    {
        let ghost before = arena@.nodes;
        arena.get_mut(h).set_persistence(false);
        assert(arena@.nodes == before.update(
            h as int,
            MergedNodeView { persist_flag: false, ..before[h as int] },
        ));
        h = h + 1;
    }
    assert(arena@.nodes =~= all_clean(old(arena)@.nodes));
}

/// Writes every node that is yet to be written at the cursor, in the order
/// of the arena, each at a new offset, and marks the nodes of the arena as
/// in step with the file. Where the file has no room the nodes stay as
/// they were marked.
pub fn persist_dirty_nodes(arena: &mut NodeArena, writer: &mut CustomBufferedWriter) -> (r: Result<
    usize,
    StoreError,
>)
    requires
        old(arena).wf(),
        old(writer)@.wf(),
    ensures
        final(arena).wf(),
        final(arena).cells@ == old(arena).cells@,
        final(writer)@.wf(),
        ({
            let dirty = dirty_items(old(arena)@.nodes);
            let l = nodes_layout(
                old(arena)@.nodes,
                without_dirty(old(arena)@.nodes, old(arena)@.offsets),
                dirty,
                old(writer)@.position() as int,
            );
            &&& stored(
                r is Ok,
                l.bytes,
                l.offsets,
                old(writer)@,
                final(writer)@,
                final(arena)@.offsets,
            )
            &&& r matches Ok(count) ==> count == dirty.len() && final(arena)@.nodes == all_clean(
                old(arena)@.nodes,
            )
            &&& r matches Err(e) ==> e == StoreError::FileTooLarge && final(arena)@.nodes
                == old(arena)@.nodes
        }),
{
    let items = take_dirty(arena);
    match persist_nodes(arena, &items, writer) {
        Err(e) => Err(e),
        Ok(()) => {
            mark_clean(arena);
            Ok(items.len())
        },
    }
}

} // verus!
