//! Insertion-ordered collections that hold at most one entry per key.
//!
//! An `IdentitySet` is keyed by the identity of a lazy item, an
//! `IdentityMap` by an `IdentityMapKey`. Inserting under a key that is
//! present replaces the value and keeps the entry's place.

use crate::models::lazy_load::LazyItemId;
use vstd::prelude::*;

verus! {

/// `s` holds no key twice.
pub open spec fn keys_distinct<K, T>(s: Seq<(K, T)>) -> bool {
    forall|i: int, j: int| 0 <= i < j < s.len() ==> (#[trigger] s[i]).0 != (#[trigger] s[j]).0
}

/// `s` holds an entry under `key`.
pub open spec fn has_key<K, T>(s: Seq<(K, T)>, key: K) -> bool {
    exists|i: int| 0 <= i < s.len() && (#[trigger] s[i]).0 == key
}

/// `i` is the first place in `s` that holds `key`.
pub open spec fn is_first_with_key<K, T>(s: Seq<(K, T)>, key: K, i: int) -> bool {
    &&& 0 <= i < s.len()
    &&& s[i].0 == key
    &&& forall|j: int| 0 <= j < i ==> (#[trigger] s[j]).0 != key
}

/// The first place in `s` that holds `key`; meaningful when there is one.
pub open spec fn first_with_key<K, T>(s: Seq<(K, T)>, key: K) -> int {
    choose|i: int| is_first_with_key(s, key, i)
}

/// `s` after an insert of `value` under `key`.
pub open spec fn inserted<K, T>(s: Seq<(K, T)>, key: K, value: T) -> Seq<(K, T)> {
    if has_key(s, key) {
        s.update(first_with_key(s, key), (key, value))
    } else {
        s.push((key, value))
    }
}

/// The sequence built by inserting the entries of `items` in order into `acc`.
pub open spec fn inserted_all<K, T>(acc: Seq<(K, T)>, items: Seq<(K, T)>) -> Seq<(K, T)>
    decreases items.len(),
{
    if items.len() == 0 {
        acc
    } else {
        inserted_all(inserted(acc, items[0].0, items[0].1), items.drop_first())
    }
}

/// The first place with a key is the only place that passes for it.
pub proof fn lemma_first_with_key<K, T>(s: Seq<(K, T)>, key: K, i: int)
    requires
        is_first_with_key(s, key, i),
    ensures
        has_key(s, key),
        first_with_key(s, key) == i,
{
    let c = first_with_key(s, key);
    assert(is_first_with_key(s, key, c));
    if c < i {
        assert(s[c].0 != key);
    } else if i < c {
        assert(s[i].0 != key);
    }
}

/// An insert keeps the keys distinct, never shrinks the sequence, and grows
/// it by one exactly when the key is new.
pub proof fn lemma_inserted<K, T>(s: Seq<(K, T)>, key: K, value: T)
    ensures
        keys_distinct(s) ==> keys_distinct(inserted(s, key, value)),
        has_key(inserted(s, key, value), key),
        inserted(s, key, value).len() == if has_key(s, key) {
            s.len()
        } else {
            s.len() + 1
        },
{
    let t = inserted(s, key, value);
    if has_key(s, key) {
        let w = choose|i: int| 0 <= i < s.len() && (#[trigger] s[i]).0 == key;
        lemma_has_first(s, key, w);
        let f = first_with_key(s, key);
        assert(t[f].0 == key);
        if keys_distinct(s) {
            assert forall|i: int, j: int| 0 <= i < j < t.len() implies (#[trigger] t[i]).0 != (
            #[trigger] t[j]).0 by {
                assert(s[i].0 != s[j].0);
            }
        }
    } else {
        assert(t[s.len() as int].0 == key);
        if keys_distinct(s) {
            assert forall|i: int, j: int| 0 <= i < j < t.len() implies (#[trigger] t[i]).0 != (
            #[trigger] t[j]).0 by {
                if j < s.len() {
                    assert(s[i].0 != s[j].0);
                } else {
                    assert(s[i].0 != key);
                }
            }
        }
    }
}

/// Where a key occurs at `w`, there is a first place that holds it.
pub proof fn lemma_has_first<K, T>(s: Seq<(K, T)>, key: K, w: int)
    requires
        0 <= w < s.len(),
        s[w].0 == key,
    ensures
        is_first_with_key(s, key, first_with_key(s, key)),
        first_with_key(s, key) <= w,
    decreases w,
{
    if forall|j: int| 0 <= j < w ==> (#[trigger] s[j]).0 != key {
        assert(is_first_with_key(s, key, w));
        lemma_first_with_key(s, key, w);
    } else {
        let j = choose|j: int| 0 <= j < w && (#[trigger] s[j]).0 == key;
        lemma_has_first(s, key, j);
    }
}

/// Entries with distinct keys, inserted in order, are held as they came.
pub proof fn lemma_inserted_all_distinct<K, T>(acc: Seq<(K, T)>, items: Seq<(K, T)>)
    requires
        keys_distinct(acc + items),
    ensures
        inserted_all(acc, items) == acc + items,
    decreases items.len(),
{
    let all = acc + items;
    if items.len() == 0 {
        assert(acc + items =~= acc);
    } else {
        let first = items[0];
        assert(!has_key(acc, first.0)) by {
            if has_key(acc, first.0) {
                let i = choose|i: int| 0 <= i < acc.len() && (#[trigger] acc[i]).0 == first.0;
                assert(all[i] == acc[i]);
                assert(all[acc.len() as int] == first);
            }
        }
        let next = acc.push(first);
        assert(inserted(acc, first.0, first.1) == next);
        assert(next + items.drop_first() =~= all);
        lemma_inserted_all_distinct(next, items.drop_first());
    }
}

/// Entries inserted into a sequence with distinct keys leave a sequence
/// with distinct keys.
pub proof fn lemma_inserted_all_keys<K, T>(acc: Seq<(K, T)>, items: Seq<(K, T)>)
    requires
        keys_distinct(acc),
    ensures
        keys_distinct(inserted_all(acc, items)),
    decreases items.len(),
{
    if items.len() > 0 {
        lemma_inserted(acc, items[0].0, items[0].1);
        lemma_inserted_all_keys(inserted(acc, items[0].0, items[0].1), items.drop_first());
    }
}

/// What holds of every entry that is inserted holds of every entry that
/// is held.
pub proof fn lemma_inserted_all_entries<K, T>(
    acc: Seq<(K, T)>,
    items: Seq<(K, T)>,
    holds: spec_fn((K, T)) -> bool,
)
    requires
        forall|i: int| 0 <= i < acc.len() ==> holds(#[trigger] acc[i]),
        forall|i: int| 0 <= i < items.len() ==> holds(#[trigger] items[i]),
    ensures
        forall|i: int|
            0 <= i < inserted_all(acc, items).len() ==> holds(
                #[trigger] inserted_all(acc, items)[i],
            ),
    decreases items.len(),
{
    if items.len() > 0 {
        let first = items[0];
        let next = inserted(acc, first.0, first.1);
        assert(holds(first));
        if has_key(acc, first.0) {
            let w = choose|j: int| 0 <= j < acc.len() && (#[trigger] acc[j]).0 == first.0;
            lemma_has_first(acc, first.0, w);
        }
        assert forall|i: int| 0 <= i < next.len() implies holds(#[trigger] next[i]) by {
            if has_key(acc, first.0) {
                if i != first_with_key(acc, first.0) {
                    assert(next[i] == acc[i]);
                }
            } else {
                if i < acc.len() {
                    assert(next[i] == acc[i]);
                }
            }
        }
        assert forall|i: int| 0 <= i < items.drop_first().len() implies holds(
            #[trigger] items.drop_first()[i],
        ) by {
            assert(items.drop_first()[i] == items[i + 1]);
        }
        lemma_inserted_all_entries(next, items.drop_first(), holds);
        assert(inserted_all(acc, items) == inserted_all(next, items.drop_first()));
        assert forall|i: int| 0 <= i < inserted_all(acc, items).len() implies holds(
            #[trigger] inserted_all(acc, items)[i],
        ) by {
            assert(holds(inserted_all(next, items.drop_first())[i]));
        }
    } else {
        assert(inserted_all(acc, items) == acc);
    }
}

/// The key of a map entry: a string or a 32-bit integer.
#[derive(Debug)]
pub enum IdentityMapKey {
    String(String),
    Int(u32),
}

/// A key as contracts see it.
pub enum KeyView {
    String(Seq<char>),
    Int(u32),
}

impl View for IdentityMapKey {
    type V = KeyView;

    open spec fn view(&self) -> KeyView {
        match self {
            IdentityMapKey::String(s) => KeyView::String(s@),
            IdentityMapKey::Int(i) => KeyView::Int(*i),
        }
    }
}

impl Clone for IdentityMapKey {
    fn clone(&self) -> (k: Self)
        ensures
            k@ == self@,
    {
        match self {
            IdentityMapKey::String(s) => IdentityMapKey::String(s.clone()),
            IdentityMapKey::Int(i) => IdentityMapKey::Int(*i),
        }
    }
}

impl IdentityMapKey {
    /// Whether two keys are the same key.
    pub fn same_as(&self, other: &IdentityMapKey) -> (b: bool)
        ensures
            b == (self@ == other@),
    {
        match (self, other) {
            (IdentityMapKey::String(a), IdentityMapKey::String(b)) => *a == *b,
            (IdentityMapKey::Int(a), IdentityMapKey::Int(b)) => *a == *b,
            _ => false,
        }
    }
}

/// An insertion-ordered set of values, each held under its identity.
#[derive(Debug)]
pub struct IdentitySet<T> {
    pub entries: Vec<(LazyItemId, T)>,
}

impl<T> View for IdentitySet<T> {
    type V = Seq<(LazyItemId, T)>;

    open spec fn view(&self) -> Seq<(LazyItemId, T)> {
        self.entries@
    }
}

impl<T: Copy> IdentitySet<T> {
    /// No identity occurs twice.
    pub open spec fn wf(&self) -> bool {
        keys_distinct(self@)
    }

    pub fn new() -> (s: Self)
        ensures
            s@ == Seq::<(LazyItemId, T)>::empty(),
            s.wf(),
    {
        IdentitySet { entries: Vec::new() }
    }

    /// Puts `value` under `id`: in the place of the entry that holds `id`,
    /// or at the end. Returns the value that was replaced.
    pub fn insert(&mut self, id: LazyItemId, value: T) -> (replaced: Option<T>)
        ensures
            final(self)@ == inserted(old(self)@, id, value),
            old(self).wf() ==> final(self).wf(),
            replaced == if has_key(old(self)@, id) {
                Some(old(self)@[first_with_key(old(self)@, id)].1)
            } else {
                None::<T>
            },
    {
        proof {
            lemma_inserted(self@, id, value);
        }
        let n: usize = self.entries.len();
        let mut i: usize = 0;
        while i < n
            invariant
                i <= n,
                n == self.entries@.len(),
                self.entries@ == old(self).entries@,
                forall|j: int| 0 <= j < i ==> (#[trigger] self.entries@[j]).0 != id,
            decreases n - i,
        {
            if self.entries[i].0 == id {
                proof {
                    lemma_first_with_key(self@, id, i as int);
                }
                let previous: T = self.entries[i].1;
                self.entries[i] = (id, value);
                return Some(previous);
            }
            i = i + 1;
        }
        self.entries.push((id, value));
        None
    }

    /// Whether an entry is held under `id`.
    pub fn contains(&self, id: LazyItemId) -> (b: bool)
        ensures
            b == has_key(self@, id),
    {
        let n: usize = self.entries.len();
        let mut i: usize = 0;
        while i < n
            invariant
                i <= n,
                n == self.entries@.len(),
                forall|j: int| 0 <= j < i ==> (#[trigger] self.entries@[j]).0 != id,
            decreases n - i,
        {
            if self.entries[i].0 == id {
                return true;
            }
            i = i + 1;
        }
        false
    }

    /// The values in insertion order.
    pub fn iter(&self) -> (out: Vec<T>)
        ensures
            out@ == self@.map_values(|e: (LazyItemId, T)| e.1),
    {
        let n: usize = self.entries.len();
        let mut out: Vec<T> = Vec::new();
        let mut i: usize = 0;
        while i < n
            invariant
                i <= n,
                n == self.entries@.len(),
                out@ == self@.subrange(0, i as int).map_values(|e: (LazyItemId, T)| e.1),
            decreases n - i,
        {
            out.push(self.entries[i].1);
            i = i + 1;
            assert(out@ =~= self@.subrange(0, i as int).map_values(|e: (LazyItemId, T)| e.1));
        }
        assert(self@.subrange(0, n as int) =~= self@);
        out
    }

    pub fn is_empty(&self) -> (b: bool)
        ensures
            b == (self@.len() == 0),
    {
        self.entries.len() == 0
    }

    pub fn len(&self) -> (n: usize)
        ensures
            n == self@.len(),
    {
        self.entries.len()
    }
}

impl<T: Copy> Clone for IdentitySet<T> {
    fn clone(&self) -> (s: Self)
        ensures
            s@ == self@,
    {
        let n: usize = self.entries.len();
        let mut entries: Vec<(LazyItemId, T)> = Vec::new();
        let mut i: usize = 0;
        while i < n
            invariant
                i <= n,
                n == self.entries@.len(),
                entries@ == self.entries@.subrange(0, i as int),
            decreases n - i,
        {
            entries.push(self.entries[i]);
            i = i + 1;
            assert(entries@ =~= self.entries@.subrange(0, i as int));
        }
        assert(self.entries@.subrange(0, n as int) =~= self.entries@);
        IdentitySet { entries }
    }
}

/// An insertion-ordered map from keys to values.
#[derive(Debug)]
pub struct IdentityMap<T> {
    pub entries: Vec<(IdentityMapKey, T)>,
}

impl<T> View for IdentityMap<T> {
    type V = Seq<(KeyView, T)>;

    open spec fn view(&self) -> Seq<(KeyView, T)> {
        self.entries@.map_values(|e: (IdentityMapKey, T)| (e.0@, e.1))
    }
}

impl<T: Copy> IdentityMap<T> {
    /// No key occurs twice.
    pub open spec fn wf(&self) -> bool {
        keys_distinct(self@)
    }

    pub fn new() -> (m: Self)
        ensures
            m@ == Seq::<(KeyView, T)>::empty(),
            m.wf(),
    {
        let m = IdentityMap { entries: Vec::new() };
        assert(m@ =~= Seq::<(KeyView, T)>::empty());
        m
    }

    /// Puts `value` under `key`: in the place of the entry that holds
    /// `key`, or at the end. Returns the value that was replaced.
    pub fn insert(&mut self, key: IdentityMapKey, value: T) -> (replaced: Option<T>)
        ensures
            final(self)@ == inserted(old(self)@, key@, value),
            old(self).wf() ==> final(self).wf(),
            replaced == if has_key(old(self)@, key@) {
                Some(old(self)@[first_with_key(old(self)@, key@)].1)
            } else {
                None::<T>
            },
    {
        proof {
            lemma_inserted(self@, key@, value);
        }
        let n: usize = self.entries.len();
        let mut i: usize = 0;
        while i < n
            invariant
                i <= n,
                n == self.entries@.len(),
                self.entries@ == old(self).entries@,
                old(self)@.len() == n,
                forall|j: int| 0 <= j < i ==> (#[trigger] old(self)@[j]).0 != key@,
            decreases n - i,
        {
            if self.entries[i].0.same_as(&key) {
                proof {
                    assert(old(self)@[i as int].0 == key@);
                    lemma_first_with_key(old(self)@, key@, i as int);
                }
                let previous: T = self.entries[i].1;
                self.entries[i] = (key, value);
                assert(self@ =~= inserted(old(self)@, key@, value));
                return Some(previous);
            }
            assert(old(self)@[i as int].0 != key@);
            i = i + 1;
        }
        assert(!has_key(old(self)@, key@));
        self.entries.push((key, value));
        assert(self@ =~= old(self)@.push((key@, value)));
        None
    }

    /// The key and the value at place `i`.
    pub fn get(&self, i: usize) -> (e: (&IdentityMapKey, T))
        requires
            i < self@.len(),
        ensures
            (e.0@, e.1) == self@[i as int],
    {
        (&self.entries[i].0, self.entries[i].1)
    }

    pub fn is_empty(&self) -> (b: bool)
        ensures
            b == (self@.len() == 0),
    {
        self.entries.len() == 0
    }

    pub fn len(&self) -> (n: usize)
        ensures
            n == self@.len(),
    {
        self.entries.len()
    }
}

impl<T: Copy> Clone for IdentityMap<T> {
    fn clone(&self) -> (m: Self)
        ensures
            m@ == self@,
    {
        let n: usize = self.entries.len();
        let mut entries: Vec<(IdentityMapKey, T)> = Vec::new();
        let mut i: usize = 0;
        while i < n
            invariant
                i <= n,
                n == self.entries@.len(),
                entries@.len() == i,
                forall|j: int|
                    0 <= j < i ==> (#[trigger] entries@[j]).0@ == self.entries@[j].0@
                        && entries@[j].1 == self.entries@[j].1,
            decreases n - i,
        {
            entries.push((self.entries[i].0.clone(), self.entries[i].1));
            i = i + 1;
        }
        let m = IdentityMap { entries };
        assert(m@ =~= self@);
        m
    }
}

} // verus!
