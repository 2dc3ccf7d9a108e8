//! An in-memory key-value store that counts its reads, writes and clears.

use std::collections::HashMap;

use vstd::prelude::*;

verus! {

/// What an entry holds: its optional manifest and its data.
pub type EntryView = (Option<Map<u32, u32>>, Seq<u8>);

/// A stored value: an optional manifest and the data bytes.
pub struct Entry {
    manifest: Option<HashMap<u32, u32>>,
    data: Vec<u8>,
}

/// The manifest of an entry, as a map.
pub open spec fn manifest_view(m: Option<HashMap<u32, u32>>) -> Option<Map<u32, u32>> {
    match m {
        Some(h) => Some(h@),
        None => None,
    }
}

impl View for Entry {
    type V = EntryView;

    closed spec fn view(&self) -> EntryView {
        (manifest_view(self.manifest), self.data@)
    }
}

impl Entry {
    /// An entry with `manifest` and `data`.
    pub fn new(manifest: Option<HashMap<u32, u32>>, data: Vec<u8>) -> (r: Self)
        ensures
            r@ == (manifest_view(manifest), data@),
    {
        Entry { manifest, data }
    }

    /// The manifest.
    pub fn get_manifest(&self) -> (r: &Option<HashMap<u32, u32>>)
        ensures
            manifest_view(*r) == self@.0,
    {
        &self.manifest
    }

    /// The data.
    pub fn get_data(&self) -> (r: &Vec<u8>)
        ensures
            r@ == self@.1,
    {
        &self.data
    }
}

impl From<Vec<u8>> for Entry {
    /// An entry without manifest holding `data`.
    fn from(data: Vec<u8>) -> (r: Self)
        ensures
            r@ == (None::<Map<u32, u32>>, data@),
    {
        Entry { manifest: None, data }
    }
}

impl vstd::std_specs::convert::FromSpecImpl<Vec<u8>> for Entry {
    open spec fn obeys_from_spec() -> bool {
        true
    }

    closed spec fn from_spec(v: Vec<u8>) -> Self {
        Entry { manifest: None, data: v }
    }
}


impl Clone for Entry {
    fn clone(&self) -> (r: Self)
        ensures
            r@ == self@,
    {
        let manifest = match &self.manifest {
            Some(m) => Some(m.clone()),
            None => None,
        };
        let data = copy_bytes(&self.data);
        Entry { manifest, data }
    }
}

/// A copy of `src`.
fn copy_bytes(src: &Vec<u8>) -> (r: Vec<u8>)
    ensures
        r@ == src@,
{
    let mut out: Vec<u8> = Vec::new();
    let mut i: usize = 0;
    while i < src.len()
        invariant
            0 <= i <= src.len(),
            out@ == src@.take(i as int),
        decreases src.len() - i,
    {
        out.push(src[i]);
        i = i + 1;
        assert(out@ == src@.take(i as int));
    }
    assert(src@.take(src.len() as int) == src@);
    out
}

/// Whether two keys hold the same bytes.
fn keys_equal(a: &[u8; 32], b: &[u8; 32]) -> (r: bool)
    ensures
        r == (a@ == b@),
{
    let mut i: usize = 0;
    while i < 32
        invariant
            0 <= i <= 32,
            a@.len() == 32,
            b@.len() == 32,
            forall|t: int| 0 <= t < i ==> a@[t] == b@[t],
        decreases 32 - i,
    {
        if a[i] != b[i] {
            return false;
        }
        i = i + 1;
    }
    assert(a@ =~= b@);
    true
}

/// The map from key bytes to entries that `s` describes, later pairs
/// overriding earlier ones.
pub open spec fn assoc(s: Seq<([u8; 32], Entry)>) -> Map<Seq<u8>, EntryView>
    decreases s.len(),
{
    if s.len() == 0 {
        Map::empty()
    } else {
        assoc(s.drop_last()).insert(s.last().0@, s.last().1@)
    }
}

/// No key occurs twice in `s`.
pub open spec fn distinct_keys(s: Seq<([u8; 32], Entry)>) -> bool {
    forall|i: int, j: int| 0 <= i < j < s.len() ==> #[trigger] s[i].0@ != #[trigger] s[j].0@
}

/// The data bytes stored in `s`, summed over its entries.
pub open spec fn stored_bytes(s: Seq<([u8; 32], Entry)>) -> nat
    decreases s.len(),
{
    if s.len() == 0 {
        0
    } else {
        stored_bytes(s.drop_last()) + s.last().1@.1.len()
    }
}

proof fn lemma_assoc_contains(s: Seq<([u8; 32], Entry)>, k: Seq<u8>)
    requires
        distinct_keys(s),
    ensures
        assoc(s).contains_key(k) <==> exists|i: int| 0 <= i < s.len() && #[trigger] s[i].0@ == k,
        forall|i: int| 0 <= i < s.len() && #[trigger] s[i].0@ == k ==> assoc(s)[k] == s[i].1@,
    decreases s.len(),
{
    if s.len() > 0 {
        let s1 = s.drop_last();
        lemma_assoc_contains(s1, k);
        if exists|i: int| 0 <= i < s1.len() && #[trigger] s1[i].0@ == k {
            let i = choose|i: int| 0 <= i < s1.len() && #[trigger] s1[i].0@ == k;
            assert(s[i].0@ == k);
        }
        if exists|i: int| 0 <= i < s.len() && #[trigger] s[i].0@ == k {
            let i = choose|i: int| 0 <= i < s.len() && #[trigger] s[i].0@ == k;
            if i < s.len() - 1 {
                assert(s1[i].0@ == k);
            }
        }
        assert forall|i: int| 0 <= i < s.len() && #[trigger] s[i].0@ == k implies assoc(s)[k] == s[i].1@ by {
            if i < s.len() - 1 {
                assert(s1[i].0@ == k);
                assert(s[i].0@ != s[s.len() - 1].0@);
            }
        }
    }
}

proof fn lemma_assoc_len(s: Seq<([u8; 32], Entry)>)
    requires
        distinct_keys(s),
    ensures
        assoc(s).dom().finite(),
        assoc(s).len() == s.len(),
    decreases s.len(),
{
    if s.len() > 0 {
        let s1 = s.drop_last();
        lemma_assoc_len(s1);
        lemma_assoc_contains(s1, s.last().0@);
        assert(!assoc(s1).contains_key(s.last().0@)) by {
            if assoc(s1).contains_key(s.last().0@) {
                let i = choose|i: int| 0 <= i < s1.len() && #[trigger] s1[i].0@ == s.last().0@;
                assert(s[i].0@ == s[s.len() - 1].0@);
            }
        }
    } else {
        assert(assoc(s) == Map::<Seq<u8>, EntryView>::empty());
    }
}

proof fn lemma_assoc_update(s: Seq<([u8; 32], Entry)>, i: int, e: Entry)
    requires
        distinct_keys(s),
        0 <= i < s.len(),
    ensures
        assoc(s.update(i, (s[i].0, e))) == assoc(s).insert(s[i].0@, e@),
        distinct_keys(s.update(i, (s[i].0, e))),
        stored_bytes(s.update(i, (s[i].0, e))) + s[i].1@.1.len() == stored_bytes(s) + e@.1.len(),
    decreases s.len(),
{
    let u = s.update(i, (s[i].0, e));
    assert forall|a: int, b: int| 0 <= a < b < u.len() implies #[trigger] u[a].0@ != #[trigger] u[b].0@ by {
        assert(u[a].0 == s[a].0 && u[b].0 == s[b].0);
    }
    if i == s.len() - 1 {
        assert(u.drop_last() == s.drop_last());
        assert(assoc(s.drop_last()).insert(s[i].0@, e@) =~= assoc(s).insert(s[i].0@, e@));
    } else {
        let s1 = s.drop_last();
        assert(u.drop_last() == s1.update(i, (s1[i].0, e)));
        lemma_assoc_update(s1, i, e);
        assert(s[i].0@ != s.last().0@);
        assert(assoc(u) =~= assoc(s).insert(s[i].0@, e@));
    }
}

/// An in-memory key-value store from 32-byte keys to entries. Inserts,
/// reads and clears are counted.
pub struct MockRocksDBMap {
    /// The entries with their keys, each key at most once (see
    /// [`MockRocksDBMap::wf`]).
    pub inner: Vec<([u8; 32], Entry)>,
    /// Number of reads through [`MockRocksDBMap::get`].
    pub get_count: usize,
    /// Number of inserts.
    pub insert_count: usize,
    /// Number of clears.
    pub clear_count: usize,
}

impl MockRocksDBMap {
    /// The stored entries, by key bytes.
    pub closed spec fn contents(&self) -> Map<Seq<u8>, EntryView> {
        assoc(self.inner@)
    }

    /// The number of data bytes stored.
    pub closed spec fn data_bytes(&self) -> nat {
        stored_bytes(self.inner@)
    }

    /// Number of counted reads.
    pub open spec fn reads(&self) -> usize {
        self.get_count
    }

    /// Number of counted inserts.
    pub open spec fn inserts(&self) -> usize {
        self.insert_count
    }

    /// Number of counted clears.
    pub open spec fn clears(&self) -> usize {
        self.clear_count
    }

    /// The store's internal invariant: no key is stored twice.
    pub closed spec fn wf(&self) -> bool {
        distinct_keys(self.inner@)
    }

    /// An empty store with all counters at zero.
    pub fn new() -> (r: Self)
        ensures
            r.wf(),
            r.contents() == Map::<Seq<u8>, EntryView>::empty(),
            r.data_bytes() == 0,
            r.reads() == 0 && r.inserts() == 0 && r.clears() == 0,
    {
        MockRocksDBMap { inner: Vec::new(), get_count: 0, insert_count: 0, clear_count: 0 }
    }

    /// Position of `key` in the entries.
    fn find(&self, key: &[u8; 32]) -> (r: Option<usize>)
        requires
            self.wf(),
        ensures
            match r {
                Some(i) => i < self.inner@.len() && self.inner@[i as int].0@ == key@,
                None => !self.contents().contains_key(key@),
            },
    {
        let mut i: usize = 0;
        while i < self.inner.len()
            invariant
                0 <= i <= self.inner@.len(),
                forall|t: int| 0 <= t < i ==> #[trigger] self.inner@[t].0@ != key@,
            decreases self.inner@.len() - i,
        {
            if keys_equal(&self.inner[i].0, key) {
                return Some(i);
            }
            i = i + 1;
        }
        proof {
            lemma_assoc_contains(self.inner@, key@);
        }
        None
    }

    /// The entry stored under `key`, if any, without counting a read.
    pub fn get_2(&self, key: &[u8; 32]) -> (r: Option<&Entry>)
        requires
            self.wf(),
        ensures
            match r {
                Some(e) => self.contents().contains_key(key@) && e@ == self.contents()[key@],
                None => !self.contents().contains_key(key@),
            },
    {
        match self.find(key) {
            Some(i) => {
                proof {
                    lemma_assoc_contains(self.inner@, key@);
                }
                Some(&self.inner[i].1)
            },
            None => None,
        }
    }

    /// Stores `value` under `key`, replacing any earlier entry, and counts
    /// an insert.
    pub fn insert(&mut self, key: [u8; 32], value: Entry)
        requires
            old(self).wf(),
            old(self).inserts() < usize::MAX,
        ensures
            final(self).wf(),
            final(self).contents() == old(self).contents().insert(key@, value@),
            old(self).contents().contains_key(key@) ==> final(self).data_bytes() + old(
                self,
            ).contents()[key@].1.len() == old(self).data_bytes() + value@.1.len(),
            !old(self).contents().contains_key(key@) ==> final(self).data_bytes() == old(self).data_bytes()
                + value@.1.len(),
            final(self).inserts() == old(self).inserts() + 1,
            final(self).reads() == old(self).reads(),
            final(self).clears() == old(self).clears(),
    {
        self.insert_count = self.insert_count + 1;
        match self.find(&key) {
            Some(i) => {
                proof {
                    lemma_assoc_contains(self.inner@, key@);
                    lemma_assoc_update(self.inner@, i as int, value);
                    assert(self.inner@[i as int].0@ == key@);
                }
                let ghost before = self.inner@;
                let k = self.inner[i].0;
                self.inner.set(i, (k, value));
                proof {
                    assert(self.inner@ == before.update(i as int, (before[i as int].0, value)));
                }
            },
            None => {
                proof {
                    lemma_assoc_contains(self.inner@, key@);
                }
                let ghost before = self.inner@;
                self.inner.push((key, value));
                proof {
                    assert(self.inner@.drop_last() == before);
                    assert forall|a: int, b: int| 0 <= a < b < self.inner@.len() implies #[trigger] self.inner@[a].0@
                        != #[trigger] self.inner@[b].0@ by {
                        if b == before.len() {
                            assert(before[a].0@ != key@) by {
                                if before[a].0@ == key@ {
                                    assert(assoc(before).contains_key(key@));
                                }
                            }
                        }
                    }
                }
            },
        }
    }

    /// A copy of the entry stored under `key`, counting a read; `None` when
    /// there is none.
    pub fn get(&mut self, key: &[u8; 32]) -> (r: Option<Entry>)
        requires
            old(self).wf(),
            old(self).reads() < usize::MAX,
        ensures
            final(self).wf(),
            final(self).contents() == old(self).contents(),
            final(self).data_bytes() == old(self).data_bytes(),
            match r {
                Some(e) => old(self).contents().contains_key(key@) && e@ == old(self).contents()[key@],
                None => !old(self).contents().contains_key(key@),
            },
            final(self).reads() == old(self).reads() + 1,
            final(self).inserts() == old(self).inserts(),
            final(self).clears() == old(self).clears(),
    {
        self.get_count = self.get_count + 1;
        match self.get_2(key) {
            Some(e) => Some(e.clone()),
            None => None,
        }
    }

    /// Whether an entry is stored under `key`.
    pub fn contains(&self, key: &[u8; 32]) -> (r: bool)
        requires
            self.wf(),
        ensures
            r == self.contents().contains_key(key@),
    {
        match self.find(key) {
            Some(i) => {
                proof {
                    lemma_assoc_contains(self.inner@, key@);
                }
                true
            },
            None => false,
        }
    }

    /// Removes all entries and counts a clear.
    pub fn clear(&mut self)
        requires
            old(self).clears() < usize::MAX,
        ensures
            final(self).wf(),
            final(self).contents() == Map::<Seq<u8>, EntryView>::empty(),
            final(self).data_bytes() == 0,
            final(self).clears() == old(self).clears() + 1,
            final(self).reads() == old(self).reads(),
            final(self).inserts() == old(self).inserts(),
    {
        self.clear_count = self.clear_count + 1;
        self.inner.clear();
    }

    /// The stored pairs, in no promised order.
    pub fn entries(&self) -> (r: &Vec<([u8; 32], Entry)>)
        requires
            self.wf(),
        ensures
            r@.len() == self.contents().len(),
            forall|i: int| 0 <= i < r@.len() ==> #[trigger] self.contents().contains_key(r@[i].0@)
                && self.contents()[r@[i].0@] == r@[i].1@,
            forall|k: Seq<u8>| #[trigger] self.contents().contains_key(k) ==> exists|i: int|
                0 <= i < r@.len() && #[trigger] r@[i].0@ == k,
    {
        proof {
            lemma_assoc_len(self.inner@);
            assert forall|i: int| 0 <= i < self.inner@.len() implies #[trigger] self.contents().contains_key(
                self.inner@[i].0@,
            ) && self.contents()[self.inner@[i].0@] == self.inner@[i].1@ by {
                lemma_assoc_contains(self.inner@, self.inner@[i].0@);
            }
            assert forall|k: Seq<u8>| #[trigger] self.contents().contains_key(k) implies exists|i: int|
                0 <= i < self.inner@.len() && #[trigger] self.inner@[i].0@ == k by {
                lemma_assoc_contains(self.inner@, k);
            }
        }
        &self.inner
    }

    /// Number of stored entries.
    pub fn len(&self) -> (r: usize)
        requires
            self.wf(),
        ensures
            r == self.contents().len(),
    {
        proof {
            lemma_assoc_len(self.inner@);
        }
        self.inner.len()
    }

    /// Whether the store holds no entry.
    pub fn is_empty(&self) -> (r: bool)
        requires
            self.wf(),
        ensures
            r == (self.contents().len() == 0),
    {
        proof {
            lemma_assoc_len(self.inner@);
        }
        self.inner.len() == 0
    }

    /// The number of data bytes stored, summed over the entries.
    pub fn total_bytes(&self) -> (r: usize)
        requires
            self.data_bytes() <= usize::MAX,
        ensures
            r == self.data_bytes(),
    {
        let mut total: usize = 0;
        let mut i: usize = 0;
        while i < self.inner.len()
            invariant
                0 <= i <= self.inner@.len(),
                total == stored_bytes(self.inner@.take(i as int)),
                stored_bytes(self.inner@) <= usize::MAX,
            decreases self.inner@.len() - i,
        {
            proof {
                assert(self.inner@.take(i + 1).drop_last() == self.inner@.take(i as int));
                lemma_stored_bytes_prefix(self.inner@, i + 1);
            }
            total = total + self.inner[i].1.get_data().len();
            i = i + 1;
        }
        assert(self.inner@.take(self.inner@.len() as int) == self.inner@);
        total
    }
}

proof fn lemma_stored_bytes_prefix(s: Seq<([u8; 32], Entry)>, i: int)
    requires
        0 <= i <= s.len(),
    ensures
        stored_bytes(s.take(i)) <= stored_bytes(s),
    decreases s.len() - i,
{
    if i < s.len() {
        lemma_stored_bytes_prefix(s, i + 1);
        assert(s.take(i + 1).drop_last() == s.take(i));
    } else {
        assert(s.take(i) == s);
    }
}

/// A read after an insert gives back the inserted entry, and an insert
/// leaves the entries under other keys as they were.
pub proof fn lemma_read_after_insert(
    c: Map<Seq<u8>, EntryView>,
    key: Seq<u8>,
    value: EntryView,
    other: Seq<u8>,
)
    ensures
        c.insert(key, value).contains_key(key),
        c.insert(key, value)[key] == value,
        other != key ==> (c.insert(key, value).contains_key(other) <==> c.contains_key(other)),
        other != key && c.contains_key(other) ==> c.insert(key, value)[other] == c[other],
{
}

impl Default for MockRocksDBMap {
    fn default() -> (r: Self)
        ensures
            r.wf(),
            r.contents() == Map::<Seq<u8>, EntryView>::empty(),
            r.reads() == 0 && r.inserts() == 0 && r.clears() == 0,
    {
        Self::new()
    }
}

} // verus!
