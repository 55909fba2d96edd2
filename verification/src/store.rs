//! The versioned store: an ordered mapping from (relation, block, LSN) keys
//! to write summaries, kept as a vector sorted strictly by key.
use vstd::prelude::*;

verus! {

/// Composite key of the versioned store. Total order: relation ascending,
/// then block ascending, then LSN ascending.
#[derive(Clone, Copy, PartialEq, Eq, Structural, Debug)]
pub struct Key {
    pub relnum: u32,
    pub blkno: u32,
    pub lsn: u64,
}

/// One write version: its key and the byte size of the originating write.
#[derive(Clone, Copy, PartialEq, Eq, Structural, Debug)]
pub struct StoreEntry {
    pub key: Key,
    pub size: u32,
}

pub open spec fn key_lt(a: Key, b: Key) -> bool {
    ||| a.relnum < b.relnum
    ||| (a.relnum == b.relnum && a.blkno < b.blkno)
    ||| (a.relnum == b.relnum && a.blkno == b.blkno && a.lsn < b.lsn)
}

pub open spec fn key_le(a: Key, b: Key) -> bool {
    key_lt(a, b) || a == b
}

/// Strictly ascending by key; in particular, keys are unique.
pub open spec fn sorted(s: Seq<StoreEntry>) -> bool {
    forall|i: int, j: int| 0 <= i < j < s.len() ==> key_lt(#[trigger] s[i].key, #[trigger] s[j].key)
}

/// The store read as a map from key to write size.
pub open spec fn entries_map(s: Seq<StoreEntry>) -> Map<Key, u32>
    decreases s.len(),
{
    if s.len() == 0 {
        Map::empty()
    } else {
        entries_map(s.drop_last()).insert(s.last().key, s.last().size)
    }
}

pub open spec fn has_key(s: Seq<StoreEntry>, k: Key) -> bool {
    exists|i: int| 0 <= i < s.len() && s[i].key == k
}

/// Exec comparison agreeing with the spec order.
pub fn key_less(a: &Key, b: &Key) -> (r: bool)
    ensures
        r == key_lt(*a, *b),
{
    if a.relnum != b.relnum {
        a.relnum < b.relnum
    } else if a.blkno != b.blkno {
        a.blkno < b.blkno
    } else {
        a.lsn < b.lsn
    }
}

proof fn lemma_entries_map_insert_at(s: Seq<StoreEntry>, i: int, e: StoreEntry)
    requires
        0 <= i <= s.len(),
        forall|j: int| i <= j < s.len() ==> s[j].key != e.key,
    ensures
        entries_map(s.insert(i, e)) == entries_map(s).insert(e.key, e.size),
    decreases s.len(),
{
    let t = s.insert(i, e);
    if i == s.len() {
        assert(t.drop_last() =~= s);
        assert(t.last() == e);
    } else {
        assert(t.last() == s.last());
        assert(t.drop_last() =~= s.drop_last().insert(i, e));
        lemma_entries_map_insert_at(s.drop_last(), i, e);
        assert(s.last().key != e.key);
        assert(entries_map(s.drop_last()).insert(e.key, e.size).insert(
            s.last().key,
            s.last().size,
        ) =~= entries_map(s.drop_last()).insert(s.last().key, s.last().size).insert(
            e.key,
            e.size,
        ));
    }
}

proof fn lemma_entries_map_update_at(s: Seq<StoreEntry>, i: int, e: StoreEntry)
    requires
        0 <= i < s.len(),
        s[i].key == e.key,
        forall|j: int| 0 <= j < s.len() && j != i ==> s[j].key != e.key,
    ensures
        entries_map(s.update(i, e)) == entries_map(s).insert(e.key, e.size),
    decreases s.len(),
{
    let t = s.update(i, e);
    if i == s.len() - 1 {
        assert(t.drop_last() =~= s.drop_last());
        assert(t.last() == e);
        assert(entries_map(s.drop_last()).insert(e.key, e.size) =~= entries_map(
            s.drop_last(),
        ).insert(s.last().key, s.last().size).insert(e.key, e.size));
    } else {
        assert(t.last() == s.last());
        assert(t.drop_last() =~= s.drop_last().update(i, e));
        assert(forall|j: int|
            0 <= j < s.drop_last().len() && j != i ==> s.drop_last()[j].key != e.key);
        lemma_entries_map_update_at(s.drop_last(), i, e);
        assert(s.last().key != e.key);
        assert(entries_map(s.drop_last()).insert(e.key, e.size).insert(
            s.last().key,
            s.last().size,
        ) =~= entries_map(s.drop_last()).insert(s.last().key, s.last().size).insert(
            e.key,
            e.size,
        ));
    }
}

/// The map view holds a key exactly when some entry holds it.
pub proof fn lemma_entries_map_domain(s: Seq<StoreEntry>, k: Key)
    ensures
        entries_map(s).contains_key(k) <==> has_key(s, k),
    decreases s.len(),
{
    if s.len() > 0 {
        lemma_entries_map_domain(s.drop_last(), k);
        if has_key(s.drop_last(), k) {
            let i = choose|i: int| 0 <= i < s.drop_last().len() && s.drop_last()[i].key == k;
            assert(s[i].key == k);
        }
        if s.last().key == k {
            assert(s[s.len() - 1].key == k);
        }
        if has_key(s, k) && s.last().key != k {
            let i = choose|i: int| 0 <= i < s.len() && s[i].key == k;
            assert(s.drop_last()[i].key == k);
        }
    }
}

/// The ordered versioned store. It only grows: a write is recorded under its
/// exact key and never deleted.
pub struct VersionedStore {
    pub entries: Vec<StoreEntry>,
}

impl View for VersionedStore {
    type V = Seq<StoreEntry>;

    open spec fn view(&self) -> Seq<StoreEntry> {
        self.entries@
    }
}

impl VersionedStore {
    pub fn new() -> (r: VersionedStore)
        ensures
            r@ == Seq::<StoreEntry>::empty(),
            sorted(r@),
    {
        let r = VersionedStore { entries: Vec::new() };
        proof {
            assert(r@ =~= Seq::<StoreEntry>::empty());
        }
        r
    }

    pub fn len(&self) -> (n: usize)
        ensures
            n == self@.len(),
    {
        self.entries.len()
    }

    /// Records a write under `key`, keeping the entries sorted; a write to an
    /// already-present key replaces that key's summary.
    pub fn insert(&mut self, key: Key, size: u32)
        requires
            sorted(old(self)@),
        ensures
            sorted(final(self)@),
            entries_map(final(self)@) == entries_map(old(self)@).insert(key, size),
            final(self)@.len() == old(self)@.len() + (if has_key(old(self)@, key) {
                0int
            } else {
                1int
            }),
    {
        let e = StoreEntry { key, size };
        let n = self.entries.len();
        let mut i: usize = 0;
        while i < n && key_less(&self.entries[i].key, &key)
            invariant
                0 <= i <= n,
                n == self@.len(),
                sorted(self@),
                self@ == old(self)@,
                forall|j: int| 0 <= j < i ==> key_lt(#[trigger] self@[j].key, key),
            decreases n - i,
        {
            i += 1;
        }
        if i < n && self.entries[i].key == key {
            proof {
                assert(forall|j: int|
                    i < j < self@.len() ==> key_lt(self@[i as int].key, #[trigger] self@[j].key));
                assert(forall|j: int| 0 <= j < self@.len() && j != i ==> self@[j].key != key);
                lemma_entries_map_update_at(self@, i as int, e);
                assert(has_key(self@, key));
            }
            self.entries.remove(i);
            self.entries.insert(i, e);
            proof {
                assert(final(self)@ =~= old(self)@.update(i as int, e));
            }
        } else {
            proof {
                assert(i < self@.len() ==> !key_lt(self@[i as int].key, key) && self@[i as int].key
                    != key);
                assert(i < self@.len() ==> key_lt(key, self@[i as int].key));
                assert(forall|j: int|
                    i <= j < self@.len() ==> key_le(self@[i as int].key, #[trigger] self@[j].key));
                assert(forall|j: int| i <= j < self@.len() ==> key_lt(key, #[trigger] self@[j].key));
                assert(forall|j: int| i <= j < self@.len() ==> self@[j].key != key);
                lemma_entries_map_insert_at(self@, i as int, e);
                assert(!has_key(self@, key));
            }
            self.entries.insert(i, e);
            proof {
                assert(final(self)@ == old(self)@.insert(i as int, e));
                assert forall|p: int, q: int|
                    0 <= p < q < final(self)@.len() implies key_lt(
                    #[trigger] final(self)@[p].key,
                    #[trigger] final(self)@[q].key,
                ) by {
                    let s0 = old(self)@;
                    let t = s0.insert(i as int, e);
                    if p < i && q == i {
                    } else if p == i && q > i {
                    } else if p < i && q > i {
                        assert(t[p] == s0[p] && t[q] == s0[q - 1]);
                    }
                }
            }
        }
    }
}

} // verus!
