//! The table from key tuples to row ordinals.
//!
//! Keys are kept in the order in which they were first added. A key is found
//! through hash buckets: each bucket lists the entries whose key hashes to
//! it, and the number of buckets doubles as the table fills.

use vstd::prelude::*;
use crate::row::{fields_equal, row_view, Fields, Row};

verus! {

/// The number of buckets of a new table.
pub const INITIAL_BUCKETS: usize = 16;

/// One step of the hash: a byte mixed into `h`.
spec fn mix(h: u64, b: u8) -> u64 {
    (h ^ (b as u64)).wrapping_mul(0x0000_0100_0000_01b3u64)
}

/// The hash of `bytes`, begun at `seed`.
spec fn hash_bytes(seed: u64, bytes: Seq<u8>) -> u64
    decreases bytes.len(),
{
    if bytes.len() == 0 {
        seed
    } else {
        mix(hash_bytes(seed, bytes.drop_last()), bytes.last())
    }
}

/// The hash of the fields of `key`, begun at `seed`. Each field is closed
/// with one more step, so that the place where a field ends counts.
spec fn hash_fields(seed: u64, key: Fields) -> u64
    decreases key.len(),
{
    if key.len() == 0 {
        seed
    } else {
        mix(hash_bytes(hash_fields(seed, key.drop_last()), key.last()), 0xffu8)
    }
}

/// The hash of a key.
spec fn hash_of(key: Fields) -> u64 {
    hash_fields(0xcbf2_9ce4_8422_2325u64, key)
}

/// The bucket of a key in a table of `buckets` buckets.
spec fn slot_of(key: Fields, buckets: nat) -> int {
    (hash_of(key) as int) % (buckets as int)
}

fn hash_field(seed: u64, bytes: &Vec<u8>) -> (h: u64)
    ensures
        h == hash_bytes(seed, bytes@),
{
    let mut h: u64 = seed;
    let mut i: usize = 0;
    while i < bytes.len()
        invariant
            i <= bytes.len(),
            h == hash_bytes(seed, bytes@.take(i as int)),
        decreases bytes.len() - i,
    {
        proof {
            assert(bytes@.take(i + 1).drop_last() =~= bytes@.take(i as int));
        }
        h = (h ^ (bytes[i] as u64)).wrapping_mul(0x0000_0100_0000_01b3u64);
        i += 1;
    }
    proof {
        assert(bytes@.take(i as int) =~= bytes@);
    }
    h
}

fn hash_key(key: &Row) -> (h: u64)
    ensures
        h == hash_of(row_view(*key)),
{
    let mut h: u64 = 0xcbf2_9ce4_8422_2325u64;
    let mut i: usize = 0;
    while i < key.len()
        invariant
            i <= key.len(),
            h == hash_fields(0xcbf2_9ce4_8422_2325u64, row_view(*key).take(i as int)),
        decreases key.len() - i,
    {
        proof {
            assert(row_view(*key).take(i + 1).drop_last() =~= row_view(*key).take(i as int));
        }
        h = hash_field(h, &key[i]);
        h = (h ^ 0xffu64).wrapping_mul(0x0000_0100_0000_01b3u64);
        i += 1;
    }
    proof {
        assert(row_view(*key).take(i as int) =~= row_view(*key));
    }
    h
}

fn slot(key: &Row, buckets: usize) -> (b: usize)
    requires
        buckets > 0,
    ensures
        b == slot_of(row_view(*key), buckets as nat),
        b < buckets,
{
    (hash_key(key) % (buckets as u64)) as usize
}

/// Entry `e` stands in `bucket`.
spec fn listed(bucket: Seq<usize>, e: int) -> bool {
    exists|k: int| 0 <= k < bucket.len() && #[trigger] bucket[k] == e
}

/// The buckets list the first `upto` entries of `keys`, each in the bucket
/// of its key, and nothing else.
spec fn buckets_hold(keys: Seq<Row>, buckets: Seq<Vec<usize>>, upto: int) -> bool {
    &&& buckets.len() > 0
    &&& forall|b: int, k: int|
        0 <= b < buckets.len() && 0 <= k < buckets[b]@.len() ==> {
            &&& 0 <= #[trigger] buckets[b]@[k] < upto
            &&& slot_of(row_view(keys[buckets[b]@[k] as int]), buckets.len()) == b
        }
    &&& forall|e: int|
        0 <= e < upto ==> listed(
            buckets[slot_of(row_view(#[trigger] keys[e]), buckets.len())]@,
            e,
        )
}

/// No two entries of `keys` hold the same key.
spec fn distinct(keys: Seq<Row>) -> bool {
    forall|d: int, e: int|
        0 <= d < keys.len() && 0 <= e < keys.len() && d != e ==> row_view(#[trigger] keys[d])
            != row_view(#[trigger] keys[e])
}

/// A table from key tuples to the ordinals of the rows that carry them.
pub struct KeyTable {
    keys: Vec<Row>,
    ordinals: Vec<Vec<usize>>,
    buckets: Vec<Vec<usize>>,
}

impl View for KeyTable {
    type V = Map<Fields, Seq<usize>>;

    /// The table as a map: each key with its ordinals, in the order in which
    /// they were added.
    closed spec fn view(&self) -> Map<Fields, Seq<usize>> {
        Map::new(|key: Fields| self.has(key), |key: Fields| self.ordinals@[self.entry_of(key)]@)
    }
}

impl KeyTable {
    /// Some entry holds `key`.
    spec fn has(&self, key: Fields) -> bool {
        exists|e: int| 0 <= e < self.keys@.len() && row_view(#[trigger] self.keys@[e]) == key
    }

    /// The entry that holds `key`.
    spec fn entry_of(&self, key: Fields) -> int {
        choose|e: int| 0 <= e < self.keys@.len() && row_view(#[trigger] self.keys@[e]) == key
    }

    /// The table is well formed: every method keeps it so.
    pub closed spec fn wf(&self) -> bool {
        &&& self.keys@.len() == self.ordinals@.len()
        &&& distinct(self.keys@)
        &&& buckets_hold(self.keys@, self.buckets@, self.keys@.len() as int)
    }

    /// The keys of the table, in the order in which they were first added.
    pub closed spec fn keys(&self) -> Seq<Fields> {
        Seq::new(self.keys@.len(), |e: int| row_view(self.keys@[e]))
    }

    proof fn lemma_entry(&self, e: int)
        requires
            self.wf(),
            0 <= e < self.keys@.len(),
        ensures
            self.has(row_view(self.keys@[e])),
            self.entry_of(row_view(self.keys@[e])) == e,
            self@.contains_key(row_view(self.keys@[e])),
            self@[row_view(self.keys@[e])] == self.ordinals@[e]@,
    {
    }

    /// An empty table.
    pub fn new() -> (table: Self)
        ensures
            table.wf(),
            table@ == Map::<Fields, Seq<usize>>::empty(),
            table.keys() == Seq::<Fields>::empty(),
    {
        let mut buckets: Vec<Vec<usize>> = Vec::new();
        let mut i: usize = 0;
        while i < INITIAL_BUCKETS
            invariant
                i <= INITIAL_BUCKETS,
                buckets@.len() == i,
                forall|b: int| 0 <= b < i ==> (#[trigger] buckets@[b])@.len() == 0,
            decreases INITIAL_BUCKETS - i,
        {
            buckets.push(Vec::new());
            i += 1;
        }
        let table = KeyTable { keys: Vec::new(), ordinals: Vec::new(), buckets };
        proof {
            assert(table@ =~= Map::<Fields, Seq<usize>>::empty());
            assert(table.keys() =~= Seq::<Fields>::empty());
        }
        table
    }

    /// The number of distinct keys.
    pub fn len(&self) -> (n: usize)
        ensures
            n == self.keys().len(),
    {
        self.keys.len()
    }

    /// The keys of the table are the keys of its map, each listed once.
    pub proof fn lemma_keys(&self)
        requires
            self.wf(),
        ensures
            forall|e: int|
                0 <= e < self.keys().len() ==> self@.contains_key(#[trigger] self.keys()[e]),
            forall|key: Fields| #[trigger] self@.contains_key(key) ==> self.keys().contains(key),
            forall|d: int, e: int|
                0 <= d < self.keys().len() && 0 <= e < self.keys().len() && d != e
                    ==> #[trigger] self.keys()[d] != #[trigger] self.keys()[e],
    {
        assert forall|e: int| 0 <= e < self.keys().len() implies self@.contains_key(
            #[trigger] self.keys()[e],
        ) by {
            self.lemma_entry(e);
        }
        assert forall|key: Fields| #[trigger] self@.contains_key(key) implies self.keys().contains(
            key,
        ) by {
            let e = self.entry_of(key);
            assert(self.keys()[e] == key);
        }
    }

    /// The key that was added as the `e`-th new one.
    pub(crate) fn key_at(&self, e: usize) -> (key: &Row)
        requires
            self.wf(),
            e < self.keys().len(),
        ensures
            row_view(*key) == self.keys()[e as int],
    {
        &self.keys[e]
    }

    /// The ordinals of the key that was added as the `e`-th new one.
    pub(crate) fn ordinals_at(&self, e: usize) -> (list: &Vec<usize>)
        requires
            self.wf(),
            e < self.keys().len(),
        ensures
            self@.contains_key(self.keys()[e as int]),
            list@ == self@[self.keys()[e as int]],
    {
        proof {
            self.lemma_entry(e as int);
        }
        &self.ordinals[e]
    }

    /// The entry that holds `key`, if there is one.
    fn find(&self, key: &Row) -> (found: Option<usize>)
        requires
            self.wf(),
        ensures
            match found {
                Some(e) => e < self.keys@.len() && row_view(self.keys@[e as int]) == row_view(
                    *key,
                ),
                None => !self.has(row_view(*key)),
            },
    {
        let b = slot(key, self.buckets.len());
        let mut k: usize = 0;
        while k < self.buckets[b].len()
            invariant
                self.wf(),
                b < self.buckets@.len(),
                b == slot_of(row_view(*key), self.buckets@.len() as nat),
                k <= self.buckets@[b as int]@.len(),
                forall|j: int|
                    0 <= j < k ==> row_view(
                        self.keys@[(#[trigger] self.buckets@[b as int]@[j]) as int],
                    ) != row_view(*key),
            decreases self.buckets@[b as int]@.len() - k,
        {
            let e = self.buckets[b][k];
            if fields_equal(&self.keys[e], key) {
                return Some(e);
            }
            k += 1;
        }
        proof {
            if self.has(row_view(*key)) {
                let e = self.entry_of(row_view(*key));
                assert(listed(self.buckets@[b as int]@, e));
            }
        }
        None
    }

    /// The ordinals that were added under `key`, in the order in which they
    /// were added; `None` where nothing was added under it.
    pub fn get(&self, key: &Row) -> (found: Option<&Vec<usize>>)
        requires
            self.wf(),
        ensures
            match found {
                Some(list) => self@.contains_key(row_view(*key)) && list@ == self@[row_view(*key)],
                None => !self@.contains_key(row_view(*key)),
            },
    {
        match self.find(key) {
            Some(e) => {
                proof {
                    self.lemma_entry(e as int);
                }
                Some(&self.ordinals[e])
            },
            None => None,
        }
    }

    /// Doubles the number of buckets and lists every entry anew.
    fn grow(&mut self)
        requires
            old(self).wf(),
            old(self).buckets@.len() * 2 <= usize::MAX,
        ensures
            final(self).wf(),
            final(self).keys == old(self).keys,
            final(self).ordinals == old(self).ordinals,
            final(self).buckets@.len() == old(self).buckets@.len() * 2,
    {
        let n: usize = self.buckets.len() * 2;
        let mut buckets: Vec<Vec<usize>> = Vec::with_capacity(n);
        let mut i: usize = 0;
        while i < n
            invariant
                i <= n,
                buckets@.len() == i,
                forall|b: int| 0 <= b < i ==> (#[trigger] buckets@[b])@.len() == 0,
            decreases n - i,
        {
            buckets.push(Vec::new());
            i += 1;
        }
        let mut e: usize = 0;
        while e < self.keys.len()
            invariant
                n > 0,
                e <= self.keys@.len(),
                buckets@.len() == n,
                buckets_hold(self.keys@, buckets@, e as int),
            decreases self.keys@.len() - e,
        {
            let b = slot(&self.keys[e], n);
            let ghost before = buckets@;
            buckets[b].push(e);
            proof {
                assert forall|d: int| 0 <= d <= e implies listed(
                    buckets@[slot_of(row_view(#[trigger] self.keys@[d]), n as nat)]@,
                    d,
                ) by {
                    let s = slot_of(row_view(self.keys@[d]), n as nat);
                    if d < e {
                        assert(listed(before[s]@, d));
                        let k = choose|k: int| 0 <= k < before[s]@.len() && #[trigger] before[s]@[k] == d;
                        assert(buckets@[s]@[k] == d);
                    } else {
                        assert(buckets@[s]@[before[s]@.len() as int] == e);
                    }
                }
                assert forall|c: int, k: int|
                    0 <= c < buckets@.len() && 0 <= k < buckets@[c]@.len() implies {
                    &&& 0 <= #[trigger] buckets@[c]@[k] < e + 1
                    &&& slot_of(row_view(self.keys@[buckets@[c]@[k] as int]), n as nat) == c
                } by {
                    if c == b && k == before[c]@.len() {
                    } else {
                        assert(buckets@[c]@[k] == before[c]@[k]);
                    }
                }
            }
            e += 1;
        }
        self.buckets = buckets;
    }

    /// Adds `ordinal` under `key`: behind the ordinals that the key has, or
    /// as the first one of a key that is new.
    pub fn add(&mut self, key: Row, ordinal: usize)
        requires
            old(self).wf(),
        ensures
            final(self).wf(),
            final(self)@ == old(self)@.insert(
                row_view(key),
                if old(self)@.contains_key(row_view(key)) {
                    old(self)@[row_view(key)].push(ordinal)
                } else {
                    seq![ordinal]
                },
            ),
            final(self).keys() == if old(self)@.contains_key(row_view(key)) {
                old(self).keys()
            } else {
                old(self).keys().push(row_view(key))
            },
    {
        let ghost kv = row_view(key);
        let ghost before = *self;
        match self.find(&key) {
            Some(e) => {
                proof {
                    self.lemma_entry(e as int);
                }
                self.ordinals[e].push(ordinal);
                proof {
                    assert(self.keys == before.keys);
                    assert(self.buckets == before.buckets);
                    assert(self.wf());
                    assert forall|k: Fields| self.has(k) == before.has(k) by {}
                    assert forall|k: Fields| self.has(k) implies self.entry_of(k)
                        == before.entry_of(k) by {}
                    assert(self@ =~= before@.insert(kv, before@[kv].push(ordinal)));
                    assert(self.keys() =~= before.keys());
                }
            },
            None => {
                if self.keys.len() >= self.buckets.len() && self.buckets.len() <= usize::MAX / 2 {
                    self.grow();
                }
                let ghost grown = *self;
                let b = slot(&key, self.buckets.len());
                let e = self.keys.len();
                self.keys.push(key);
                self.ordinals.push(vec![ordinal]);
                self.buckets[b].push(e);
                proof {
                    let n = self.buckets@.len() as nat;
                    assert forall|d: int| 0 <= d < self.keys@.len() implies listed(
                        self.buckets@[slot_of(row_view(#[trigger] self.keys@[d]), n)]@,
                        d,
                    ) by {
                        let s = slot_of(row_view(self.keys@[d]), n);
                        if d < e {
                            assert(self.keys@[d] == grown.keys@[d]);
                            assert(listed(grown.buckets@[s]@, d));
                            let k = choose|k: int|
                                0 <= k < grown.buckets@[s]@.len() && #[trigger] grown.buckets@[s]@[k]
                                    == d;
                            assert(self.buckets@[s]@[k] == d);
                        } else {
                            assert(self.buckets@[s]@[grown.buckets@[s]@.len() as int] == e);
                        }
                    }
                    assert forall|c: int, k: int|
                        0 <= c < self.buckets@.len() && 0 <= k < self.buckets@[c]@.len() implies {
                        &&& 0 <= #[trigger] self.buckets@[c]@[k] < self.keys@.len()
                        &&& slot_of(row_view(self.keys@[self.buckets@[c]@[k] as int]), n) == c
                    } by {
                        if c == b && k == grown.buckets@[c]@.len() {
                        } else {
                            assert(self.buckets@[c]@[k] == grown.buckets@[c]@[k]);
                            assert(self.keys@[self.buckets@[c]@[k] as int]
                                == grown.keys@[grown.buckets@[c]@[k] as int]);
                        }
                    }
                    assert forall|c: int, d: int|
                        0 <= c < self.keys@.len() && 0 <= d < self.keys@.len() && c != d implies row_view(
                        #[trigger] self.keys@[c],
                    ) != row_view(#[trigger] self.keys@[d]) by {
                        if c < e {
                            assert(self.keys@[c] == before.keys@[c]);
                        }
                        if d < e {
                            assert(self.keys@[d] == before.keys@[d]);
                        }
                    }
                    assert(self.wf());
                    assert forall|k: Fields| self.has(k) == (before.has(k) || k == kv) by {
                        if before.has(k) {
                            let d = before.entry_of(k);
                            assert(self.keys@[d] == before.keys@[d]);
                        }
                        if k == kv {
                            assert(row_view(self.keys@[e as int]) == kv);
                        }
                        if self.has(k) {
                            let d = self.entry_of(k);
                            if d < e {
                                assert(self.keys@[d] == before.keys@[d]);
                            }
                        }
                    }
                    assert forall|k: Fields| before.has(k) implies self.ordinals@[self.entry_of(
                        k,
                    )]@ == before.ordinals@[before.entry_of(k)]@ by {
                        let d = before.entry_of(k);
                        assert(self.keys@[d] == before.keys@[d]);
                        self.lemma_entry(d);
                    }
                    self.lemma_entry(e as int);
                    assert(self.ordinals@[e as int]@ =~= seq![ordinal]);
                    assert(self@.dom() =~= before@.insert(kv, seq![ordinal]).dom());
                    assert forall|k: Fields| self@.contains_key(k) implies self@[k] == before@.insert(kv, seq![ordinal])[k] by {
                        if k == kv {
                        } else {
                            assert(before.has(k));
                        }
                    }
                    assert(self@ =~= before@.insert(kv, seq![ordinal]));
                    assert(self.keys() =~= before.keys().push(kv));
                }
            },
        }
    }
}

} // verus!
