//! Keys and maps on disk.

use crate::models::cache_loader::{
    as_versions, collection_slots, lemma_load_entries, load_collection, load_collection_entries,
    state_of, versions_from, EntryKind, LoadState, NodeRegistry,
};
use crate::models::common::{LoadError, StoreError};
use crate::models::custom_buffered_writer::CustomBufferedWriter;
use crate::models::endian::{
    append_bytes, le32, lemma_le_round_trip, lemma_read32_of, read32, read_u32_at, u32_to_le,
};
use crate::models::identity_collections::{IdentityMapKey, KeyView};
use crate::models::lazy_load::{LazyItem, LazyItemMap};
use crate::models::node_arena::NodeArena;
use crate::models::serializer::assigned::{
    lemma_entries_assigned, resolved, targets_assigned,
};
use crate::models::registry_laws::lemma_load_entries_keeps;
use crate::models::serializer::CustomSerialize;
use crate::models::serializer::layout::{
    entries_layout, key_bytes, keyed_entries, lemma_entries_layout, string_key_head, Layout, MSB,
};
use crate::models::serializer::write::{
    entry_views, lemma_chunks_start, lemma_written_nothing, write_entries, ChunkEntry,
};
use crate::models::types::{FileOffset, MergedNodeView};
use std::collections::HashSet;
use vstd::prelude::*;
use vstd::slice::slice_subrange;
use vstd::utf8::{decode_utf8, encode_utf8, valid_utf8};

verus! {

/// What is read at `offset`: a record of `size` bytes is there, or the
/// offset points outside the file, or the record is cut off.
pub open spec fn record_at(bytes: Seq<u8>, offset: u32, size: int) -> Result<(), LoadError> {
    if offset == u32::MAX || offset >= bytes.len() {
        Err(LoadError::Corrupt)
    } else if offset + size > bytes.len() {
        Err(LoadError::Truncated)
    } else {
        Ok(())
    }
}

/// The key written at `offset`, and where it ends.
pub open spec fn key_at(bytes: Seq<u8>, offset: u32) -> Result<(KeyView, int), LoadError> {
    match record_at(bytes, offset, 4) {
        Err(e) => Err(e),
        Ok(()) => {
            let head = read32(bytes, offset as int);
            if head < MSB {
                Ok((KeyView::Int(head), offset + 4))
            } else {
                let len = head - MSB;
                let text = bytes.subrange(offset + 4, offset + 4 + len);
                if offset + 4 + len > bytes.len() {
                    Err(LoadError::Truncated)
                } else if !valid_utf8(text) {
                    Err(LoadError::Corrupt)
                } else {
                    Ok((KeyView::String(decode_utf8(text)), offset + 4 + len))
                }
            }
        },
    }
}

/// A key that its encoding can hold: an integer below the marker bit, or a
/// string whose length fits into 31 bits.
pub open spec fn key_encodable(key: KeyView) -> bool {
    match key {
        KeyView::Int(i) => i < MSB,
        KeyView::String(s) => encode_utf8(s).len() < MSB,
    }
}

/// A key that can be encoded is read back from its encoding as it was,
/// wherever in a file the encoding lies.
pub proof fn lemma_key_round_trip(bytes: Seq<u8>, offset: u32, key: KeyView)
    requires
        key_encodable(key),
        offset != u32::MAX,
        offset + key_bytes(key).len() <= bytes.len(),
        bytes.subrange(offset as int, offset + key_bytes(key).len()) == key_bytes(key),
    ensures
        key_at(bytes, offset) == Ok::<(KeyView, int), LoadError>(
            (key, offset + key_bytes(key).len()),
        ),
{
    lemma_le_round_trip();
    let encoded = key_bytes(key);
    let window = bytes.subrange(offset as int, offset + encoded.len());
    match key {
        KeyView::Int(i) => {
            assert(bytes.subrange(offset as int, offset + 4) == le32(i));
            lemma_read32_of(bytes, offset as int, i);
        },
        KeyView::String(s) => {
            let text = encode_utf8(s);
            let head = string_key_head(text.len());
            assert(bytes.subrange(offset as int, offset + 4) =~= window.subrange(0, 4));
            assert(window.subrange(0, 4) =~= le32(head));
            lemma_read32_of(bytes, offset as int, head);
            assert(head == MSB + text.len());
            assert(bytes.subrange(offset + 4, offset + 4 + text.len()) =~= window.subrange(
                4,
                4 + text.len() as int,
            ));
            assert(window.subrange(4, 4 + text.len() as int) =~= text);
            vstd::utf8::encode_utf8_valid_utf8(s);
            vstd::utf8::encode_utf8_decode_utf8(s);
        },
    }
}

/// A key that is read from a file can be encoded.
pub proof fn lemma_key_at_encodable(bytes: Seq<u8>, offset: u32)
    requires
        key_at(bytes, offset) is Ok,
    ensures
        key_encodable(key_at(bytes, offset)->Ok_0.0),
{
    let head = read32(bytes, offset as int);
    if head >= MSB {
        let len = head - MSB;
        let text = bytes.subrange(offset + 4, offset + 4 + len);
        vstd::utf8::decode_utf8_encode_utf8(text);
    }
}

/// `String::from_utf8`: the string whose UTF-8 encoding is `bytes`, or
/// nothing where `bytes` is not UTF-8.
#[verifier::external_body]
fn string_from_utf8(bytes: Vec<u8>) -> (r: Option<String>)
    ensures
        r is Some <==> valid_utf8(bytes@),
        r matches Some(s) ==> s@ == decode_utf8(bytes@),
{
    String::from_utf8(bytes).ok()
}

impl CustomSerialize for IdentityMapKey {
    type Loaded = KeyView;

    open spec fn loaded(&self, arena: NodeArena) -> KeyView {
        self@
    }

    open spec fn layout(&self, arena: NodeArena, pos: int) -> Layout {
        Layout { bytes: key_bytes(self@), offsets: arena@.offsets, value: pos as u32 }
    }

    open spec fn load(bytes: Seq<u8>, st: LoadState, offset: u32, max_loads: u16) -> (
        Result<KeyView, LoadError>,
        LoadState,
    ) {
        (
            match key_at(bytes, offset) {
                Ok((key, end)) => Ok(key),
                Err(e) => Err(e),
            },
            st,
        )
    }

    /// Writes the key at the cursor and returns the offset of its first
    /// byte. Nothing is written where the file has no room.
    fn serialize(&self, arena: &mut NodeArena, writer: &mut CustomBufferedWriter) -> (r: Result<
        u32,
        StoreError,
    >)
        ensures
            final(arena)@ == old(arena)@,
            r is Ok ==> r->Ok_0 == old(writer)@.position(),
            r is Err ==> final(writer)@ == old(writer)@,
    {
        let start: u64 = writer.stream_position();
        let encoded = self.encode();
        match writer.write(encoded.as_slice()) {
            Err(e) => Err(e),
            Ok(()) => Ok(start as u32),
        }
    }

    /// Reads the key written at `offset`. Nothing is loaded on the way.
    fn deserialize(
        cache: &mut NodeRegistry,
        offset: u32,
        max_loads: u16,
        skipm: &mut HashSet<u32>,
    ) -> (r: Result<Self, LoadError>)
        ensures
            final(cache).arena.cells@ == old(cache).arena.cells@,
            final(cache)@ == old(cache)@,
            final(skipm)@ == old(skipm)@,
    {
        match read_key(cache.reader.as_slice(), offset) {
            Ok((key, end)) => Ok(key),
            Err(e) => Err(e),
        }
    }

    proof fn lemma_load_keeps(bytes: Seq<u8>, st: LoadState, offset: u32, max_loads: u16) {
    }
}

impl IdentityMapKey {
    /// The encoding of the key.
    pub fn encode(&self) -> (out: Vec<u8>)
        ensures
            out@ == key_bytes(self@),
    {
        match self {
            IdentityMapKey::Int(i) => u32_to_le(*i),
            IdentityMapKey::String(s) => {
                let text = s.as_str().as_bytes();
                let len: usize = text.len();
                let low: u32 = (len % (MSB as usize)) as u32;
                let mut out = u32_to_le(MSB + low);
                append_bytes(&mut out, text);
                out
            },
        }
    }
}

/// Checks that a record of `size` bytes lies at `offset` and returns the
/// offset as an index.
pub fn check_record(bytes: &[u8], offset: u32, size: usize) -> (r: Result<usize, LoadError>)
    ensures
        match record_at(bytes@, offset, size as int) {
            Ok(()) => r == Ok::<usize, LoadError>(offset as usize) && offset + size <= bytes@.len(),
            Err(e) => r == Err::<usize, LoadError>(e),
        },
{
    let len: usize = bytes.len();
    if offset == u32::MAX || offset as u64 >= len as u64 {
        return Err(LoadError::Corrupt);
    }
    let at: usize = offset as usize;
    if size > len - at {
        return Err(LoadError::Truncated);
    }
    Ok(at)
}

/// Reads the key written at `offset` and returns it with the place where
/// it ends.
pub fn read_key(bytes: &[u8], offset: u32) -> (r: Result<(IdentityMapKey, usize), LoadError>)
    ensures
        match key_at(bytes@, offset) {
            Ok((key, end)) => r matches Ok((k, e)) && k@ == key && e == end && end <= bytes@.len(),
            Err(e) => r == Err::<(IdentityMapKey, usize), LoadError>(e),
        },
{
    let total: usize = bytes.len();
    let at: usize = match check_record(bytes, offset, 4) {
        Err(e) => {
            return Err(e);
        },
        Ok(at) => at,
    };
    let head: u32 = read_u32_at(bytes, at);
    if head < MSB {
        return Ok((IdentityMapKey::Int(head), at + 4));
    }
    let len: usize = (head - MSB) as usize;
    if len > total - (at + 4) {
        return Err(LoadError::Truncated);
    }
    let text = slice_subrange(bytes, at + 4, at + 4 + len);
    let mut owned: Vec<u8> = Vec::new();
    append_bytes(&mut owned, text);
    assert(owned@ =~= text@);
    match string_from_utf8(owned) {
        None => Err(LoadError::Corrupt),
        Some(s) => Ok((IdentityMapKey::String(s), at + 4 + len)),
    }
}

impl CustomSerialize for LazyItemMap {
    type Loaded = Seq<(KeyView, LazyItem)>;

    open spec fn loaded(&self, arena: NodeArena) -> Seq<(KeyView, LazyItem)> {
        self@
    }

    open spec fn layout(&self, arena: NodeArena, pos: int) -> Layout {
        entries_layout(arena@.nodes, arena@.offsets, keyed_entries(self@), false, pos).plain()
    }

    open spec fn load(bytes: Seq<u8>, st: LoadState, offset: u32, max_loads: u16) -> (
        Result<Seq<(KeyView, LazyItem)>, LoadError>,
        LoadState,
    ) {
        let r = load_collection(bytes, st, offset, EntryKind::Keyed, max_loads);
        (
            match r.0 {
                Ok(entries) => Ok(as_versions(entries)),
                Err(e) => Err(e),
            },
            r.1,
        )
    }

    /// Writes the map at the cursor and returns the offset of its first
    /// chunk. An empty map writes nothing and is the absent offset. After a
    /// write that succeeded, the offset known for each item is the one that
    /// was written for it, and each item with a node in the arena has one.
    fn serialize(&self, arena: &mut NodeArena, writer: &mut CustomBufferedWriter) -> (r: Result<
        u32,
        StoreError,
    >)
        ensures
            self@.len() == 0 ==> r == Ok::<u32, StoreError>(u32::MAX) && final(writer)@ == old(
                writer,
            )@,
            self@.len() > 0 ==> (r matches Ok(v) ==> v == old(writer)@.position() && v != u32::MAX),
            r is Ok ==> {
                let l = entries_layout(
                    old(arena)@.nodes,
                    old(arena)@.offsets,
                    keyed_entries(self@),
                    false,
                    old(writer)@.position() as int,
                );
                &&& targets_assigned(l.targets, final(arena)@.offsets, keyed_entries(self@))
                &&& resolved(final(arena)@.offsets, keyed_entries(self@))
            },
    {
        let ghost nodes = arena@.nodes;
        let ghost table = arena@.offsets;
        let ghost pos = writer@.position() as int;
        proof {
            lemma_entries_layout(
                arena@.nodes,
                arena@.offsets,
                keyed_entries(self@),
                false,
                writer@.position() as int,
            );
            lemma_written_nothing(writer@);
            if self@.len() > 0 {
                lemma_chunks_start(
                    arena@.nodes,
                    arena@.offsets,
                    keyed_entries(self@),
                    false,
                    writer@.position() as int,
                );
            }
        }
        let entries = map_chunk_entries(self);
        let r = write_entries(&arena.nodes, &mut arena.offsets, &entries, false, writer);
        proof {
            if r is Ok {
                lemma_entries_assigned(nodes, table, keyed_entries(self@), false, pos);
            }
        }
        r
    }

    /// Loads the map written at `offset`. The absent offset is the empty
    /// map.
    fn deserialize(
        cache: &mut NodeRegistry,
        offset: u32,
        max_loads: u16,
        skipm: &mut HashSet<u32>,
    ) -> (r: Result<Self, LoadError>)
        ensures
            final(cache).arena.cells@ == old(cache).arena.cells@,
            offset == u32::MAX ==> {
                &&& r is Ok
                &&& r->Ok_0@.len() == 0
                &&& final(cache)@ == old(cache)@
                &&& final(skipm)@ == old(skipm)@
            },
    {
        proof {
            lemma_load_entries(
                cache@.bytes,
                state_of(cache@.arena, cache@.registry, skipm@),
                Seq::empty(),
                EntryKind::Keyed,
                max_loads,
            );
        }
        match load_collection_entries(
            cache.reader.as_slice(),
            &mut cache.arena,
            &mut cache.registry,
            skipm,
            offset,
            EntryKind::Keyed,
            max_loads,
        ) {
            Err(e) => Err(e),
            Ok(entries) => Ok(versions_from(&entries)),
        }
    }

    proof fn lemma_load_keeps(bytes: Seq<u8>, st: LoadState, offset: u32, max_loads: u16) {
        if collection_slots(bytes, offset) is Ok {
            lemma_load_entries_keeps(
                bytes,
                st,
                collection_slots(bytes, offset).unwrap(),
                EntryKind::Keyed,
                max_loads,
            );
        }
    }
}

/// The entries of `map`: each key in front of its item.
pub fn map_chunk_entries(map: &LazyItemMap) -> (entries: Vec<ChunkEntry>)
    ensures
        entry_views(entries@) == keyed_entries(map@),
{
    let n: usize = map.items.len();
    let mut entries: Vec<ChunkEntry> = Vec::new();
    let mut i: usize = 0;
    while i < n
        invariant
            i <= n,
            n == map@.len(),
            entry_views(entries@) == keyed_entries(map@.subrange(0, i as int)),
        decreases n - i,
    {
        let pair = map.items.get(i);
        let entry = ChunkEntry { prefix: pair.0.encode(), item: pair.1 };
        assert(entry@ == keyed_entries(map@)[i as int]);
        let ghost before = entry_views(entries@);
        entries.push(entry);
        i = i + 1;
        assert(entry_views(entries@) =~= before.push(entry@));
        assert(keyed_entries(map@.subrange(0, i as int)) =~= before.push(entry@));
    }
    assert(map@.subrange(0, n as int) =~= map@);
    entries
}

} // verus!
