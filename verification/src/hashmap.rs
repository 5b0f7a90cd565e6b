//! A small chained hash map with a fixed number of buckets.
//!
//! A key's bucket is its hash modulo the number of buckets; within a bucket
//! the entries stand in the order in which their keys first arrived.

use std::fmt::Display;
use std::hash::{Hash, Hasher};
use vstd::prelude::*;
use vstd::std_specs::cmp::PartialEqSpec;

verus! {

/// The number of buckets of a new map.
pub const BUCKETS: usize = 32;

/// A hasher that folds each byte into its state `s` as `s * 31 + byte`, with
/// wrapping arithmetic.
pub struct SimpleHasher(pub u64);

/// The state of a [`SimpleHasher`] after it has taken `bytes` in, starting
/// from `state`.
pub open spec fn fold_bytes(state: u64, bytes: Seq<u8>) -> u64
    decreases bytes.len(),
{
    if bytes.len() == 0 {
        state
    } else {
        let before = fold_bytes(state, bytes.drop_last());
        ((before * 31 + bytes.last()) % 0x1_0000_0000_0000_0000) as u64
    }
}

impl SimpleHasher {
    /// Takes `bytes` into the state, one by one.
    pub fn absorb(&mut self, bytes: &[u8])
        ensures
            final(self).0 == fold_bytes(old(self).0, bytes@),
    {
        let mut i: usize = 0;
        while i < bytes.len()
            invariant
                i <= bytes.len(),
                self.0 == fold_bytes(old(self).0, bytes@.take(i as int)),
            decreases bytes.len() - i,
        {
            let byte: u8 = bytes[i];
            proof {
                assert(bytes@.take(i + 1).drop_last() == bytes@.take(i as int));
            }
            self.0 = self.0.wrapping_mul(31).wrapping_add(byte as u64);
            i += 1;
        }
        proof {
            assert(bytes@.take(i as int) == bytes@);
        }
    }
}

impl Hasher for SimpleHasher {
    /// Takes `bytes` into the state, as [`SimpleHasher::absorb`] does.
    fn write(&mut self, bytes: &[u8])
        ensures
            final(self).0 == fold_bytes(old(self).0, bytes@),
    {
        self.absorb(bytes);
    }

    /// The hash is the state itself.
    fn finish(&self) -> (h: u64)
        ensures
            h == self.0,
    {
        self.0
    }
}

/// Whether `p` is the first position of `bucket` whose key equals `key`.
pub open spec fn first_match<K: PartialEq, V>(bucket: Seq<(K, V)>, key: K, p: int) -> bool {
    &&& 0 <= p < bucket.len()
    &&& bucket[p].0.eq_spec(&key)
    &&& forall|j: int| 0 <= j < p ==> !(#[trigger] bucket[j]).0.eq_spec(&key)
}

/// Whether no key of `bucket` equals `key`.
pub open spec fn no_match<K: PartialEq, V>(bucket: Seq<(K, V)>, key: K) -> bool {
    forall|j: int| 0 <= j < bucket.len() ==> !(#[trigger] bucket[j]).0.eq_spec(&key)
}

/// A bucket after `key` has been set to `value` in it: the first entry with
/// an equal key keeps its key and takes the value; without one, the pair is
/// appended.
pub open spec fn bucket_put<K: PartialEq, V>(bucket: Seq<(K, V)>, key: K, value: V) -> Seq<
    (K, V),
> {
    if no_match(bucket, key) {
        bucket.push((key, value))
    } else {
        let p = choose|p: int| first_match(bucket, key, p);
        bucket.update(p, (bucket[p].0, value))
    }
}

/// The value that a bucket holds for `key`: that of the first entry with an
/// equal key.
pub open spec fn bucket_get<K: PartialEq, V>(bucket: Seq<(K, V)>, key: K) -> Option<V> {
    if no_match(bucket, key) {
        None
    } else {
        let p = choose|p: int| first_match(bucket, key, p);
        Some(bucket[p].1)
    }
}

/// Two positions that are both the first match are the same position.
pub proof fn lemma_first_match_unique<K: PartialEq, V>(bucket: Seq<(K, V)>, key: K, p: int, q: int)
    requires
        first_match(bucket, key, p),
        first_match(bucket, key, q),
    ensures
        p == q,
{
    if p < q {
        assert(!bucket[p].0.eq_spec(&key));
    } else if q < p {
        assert(!bucket[q].0.eq_spec(&key));
    }
}

/// A bucket holds for `key` the value that was last put there for it, where
/// `key` equals itself.
pub proof fn lemma_get_after_put<K: PartialEq, V>(bucket: Seq<(K, V)>, key: K, value: V)
    requires
        key.eq_spec(&key),
    ensures
        bucket_get(bucket_put(bucket, key, value), key) == Some(value),
        no_match(bucket, key) ==> bucket_put(bucket, key, value).len() == bucket.len() + 1,
        !no_match(bucket, key) ==> bucket_put(bucket, key, value).len() == bucket.len(),
{
    let after = bucket_put(bucket, key, value);
    let at: int = if no_match(bucket, key) {
        bucket.len() as int
    } else {
        choose|p: int| first_match(bucket, key, p)
    };
    if !no_match(bucket, key) {
        let j = choose|j: int| 0 <= j < bucket.len() && (#[trigger] bucket[j]).0.eq_spec(&key);
        lemma_first_match_exists(bucket, key, j);
    }
    assert(first_match(after, key, at));
    assert(after[at].0.eq_spec(&key));
    let q = choose|q: int| first_match(after, key, q);
    lemma_first_match_unique(after, key, q, at);
}

/// Putting a value for `key` leaves what the bucket holds for any `other` key
/// as it was, where `key` does not equal `other` and no key of the bucket
/// equals both.
pub proof fn lemma_get_other_after_put<K: PartialEq, V>(
    bucket: Seq<(K, V)>,
    key: K,
    value: V,
    other: K,
)
    requires
        !key.eq_spec(&other),
        forall|j: int|
            0 <= j < bucket.len() ==> !((#[trigger] bucket[j]).0.eq_spec(&key) && bucket[j].0.eq_spec(
                &other,
            )),
    ensures
        bucket_get(bucket_put(bucket, key, value), other) == bucket_get(bucket, other),
{
    let after = bucket_put(bucket, key, value);
    if !no_match(bucket, key) {
        let j = choose|j: int| 0 <= j < bucket.len() && (#[trigger] bucket[j]).0.eq_spec(&key);
        lemma_first_match_exists(bucket, key, j);
    }
    assert(forall|j: int| 0 <= j < bucket.len() ==> (#[trigger] after[j]).0 == bucket[j].0);
    if no_match(bucket, other) {
        assert forall|j: int| 0 <= j < after.len() implies !(#[trigger] after[j]).0.eq_spec(
            &other,
        ) by {
            if j < bucket.len() {
                assert(!bucket[j].0.eq_spec(&other));
            }
        }
    } else {
        let j = choose|j: int| 0 <= j < bucket.len() && (#[trigger] bucket[j]).0.eq_spec(&other);
        lemma_first_match_exists(bucket, other, j);
        let q = choose|q: int| first_match(bucket, other, q);
        assert(first_match(after, other, q)) by {
            assert(after[q].0 == bucket[q].0);
            assert forall|i: int| 0 <= i < q implies !(#[trigger] after[i]).0.eq_spec(&other) by {
                assert(!bucket[i].0.eq_spec(&other));
            }
        }
        let r = choose|r: int| first_match(after, other, r);
        lemma_first_match_unique(after, other, r, q);
        assert(!bucket[q].0.eq_spec(&key));
        assert(after[q].1 == bucket[q].1);
    }
}

/// Where some entry up to position `upto` has a key equal to `key`, there is
/// a first such entry.
pub proof fn lemma_first_match_exists<K: PartialEq, V>(bucket: Seq<(K, V)>, key: K, upto: int)
    requires
        0 <= upto < bucket.len(),
        bucket[upto].0.eq_spec(&key),
    ensures
        exists|p: int| first_match(bucket, key, p),
    decreases upto,
{
    if exists|j: int| 0 <= j < upto && (#[trigger] bucket[j]).0.eq_spec(&key) {
        let j = choose|j: int| 0 <= j < upto && (#[trigger] bucket[j]).0.eq_spec(&key);
        lemma_first_match_exists(bucket, key, j);
    } else {
        assert(first_match(bucket, key, upto));
    }
}

/// The first position of `bucket` whose key equals `key`, if there is one.
fn find_key<K: PartialEq, V>(bucket: &Vec<(K, V)>, key: &K) -> (r: Option<usize>)
    ensures
        match r {
            Some(p) => p < bucket@.len() && (K::obeys_eq_spec() ==> first_match(
                bucket@,
                *key,
                p as int,
            )),
            None => K::obeys_eq_spec() ==> no_match(bucket@, *key),
        },
{
    let mut i: usize = 0;
    while i < bucket.len()
        invariant
            i <= bucket@.len(),
            K::obeys_eq_spec() ==> forall|j: int|
                0 <= j < i ==> !(#[trigger] bucket@[j]).0.eq_spec(key),
        decreases bucket@.len() - i,
    {
        if bucket[i].0 == *key {
            return Some(i);
        }
        i += 1;
    }
    None
}

/// Feeds `key` to `hasher` through `Hash::hash` of the standard library.
/// Nothing is claimed of the state that the hasher is left in: which bytes a
/// key feeds, and in how many pieces, is up to its `Hash` impl.
#[verifier::external_body]
fn feed_key<K: Hash>(key: &K, hasher: &mut SimpleHasher) {
    key.hash(hasher);
}

/// A map from `K` to `V`, kept as a fixed number of buckets of pairs.
pub struct HashMap<K, V> {
    buckets: Vec<Vec<(K, V)>>,
    capacity: usize,
}

impl<K, V> View for HashMap<K, V> {
    type V = Seq<Seq<(K, V)>>;

    /// The buckets, each with its pairs in order.
    closed spec fn view(&self) -> Seq<Seq<(K, V)>> {
        Seq::new(self.buckets@.len(), |i: int| self.buckets@[i]@)
    }
}

/// The first position at or after entry `item` of bucket `bucket` that holds
/// an entry, walking the buckets in order; `None` when nothing is left.
pub open spec fn next_entry<K, V>(buckets: Seq<Seq<(K, V)>>, bucket: int, item: int) -> Option<
    (int, int),
>
    decreases buckets.len() - bucket,
{
    if bucket < 0 || bucket >= buckets.len() {
        None
    } else if 0 <= item < buckets[bucket].len() {
        Some((bucket, item))
    } else {
        next_entry(buckets, bucket + 1, 0)
    }
}

impl<K: Hash + Eq + Clone + Display, V: Clone + Display> HashMap<K, V> {
    /// The number of buckets that the map was made with.
    pub closed spec fn capacity(&self) -> nat {
        self.capacity as nat
    }

    /// The map has at least one bucket, and as many as it was made with.
    pub open spec fn wf(&self) -> bool {
        self@.len() > 0 && self@.len() == self.capacity()
    }

    /// An empty map of [`BUCKETS`] buckets.
    pub fn new() -> (m: Self)
        ensures
            m.wf(),
            m@.len() == BUCKETS,
            forall|i: int| 0 <= i < m@.len() ==> (#[trigger] m@[i]).len() == 0,
    {
        let capacity: usize = BUCKETS;
        let mut buckets: Vec<Vec<(K, V)>> = Vec::new();
        while buckets.len() < capacity
            invariant
                buckets@.len() <= capacity,
                forall|i: int| 0 <= i < buckets@.len() ==> (#[trigger] buckets@[i])@.len() == 0,
            decreases capacity - buckets@.len(),
        {
            buckets.push(Vec::new());
        }
        HashMap { buckets, capacity }
    }

    /// The hash of `key`: what a [`SimpleHasher`] that starts at 0 holds after
    /// the key has fed itself to it.
    fn hash_key(&self, key: &K) -> (h: u64) {
        let mut hasher = SimpleHasher(0);
        feed_key(key, &mut hasher);
        hasher.0
    }

    /// The bucket that a key with this hash belongs to.
    pub open spec fn slot(self, hash: u64) -> int {
        (hash as int) % (self@.len() as int)
    }

    /// Sets `key` to `value` in the bucket that `hash` selects.
    ///
    /// Where an entry of that bucket has an equal key, the first such entry
    /// keeps its key and takes the new value; otherwise the pair is appended
    /// to the bucket. The other buckets stay as they are.
    pub fn insert_hashed(&mut self, hash: u64, key: K, value: V)
        requires
            old(self).wf(),
        ensures
            final(self).wf(),
            final(self)@.len() == old(self)@.len(),
            forall|i: int|
                0 <= i < old(self)@.len() && i != old(self).slot(hash) ==> final(self)@[i] == old(
                    self,
                )@[i],
            ({
                let before = old(self)@[old(self).slot(hash)];
                let after = final(self)@[old(self).slot(hash)];
                ||| after == before.push((key, value))
                ||| exists|p: int|
                    0 <= p < before.len() && after == before.update(
                        p,
                        ((#[trigger] before[p]).0, value),
                    )
            }),
            K::obeys_eq_spec() ==> final(self)@ == old(self)@.update(
                old(self).slot(hash),
                bucket_put(old(self)@[old(self).slot(hash)], key, value),
            ),
    {
        let index: usize = (hash % (self.capacity as u64)) as usize;
        assert(index == self.slot(hash));
        let found = find_key(&self.buckets[index], &key);
        let ghost before = self@;
        match found {
            Some(p) => {
                proof {
                    if K::obeys_eq_spec() {
                        let q = choose|q: int| first_match(before[index as int], key, q);
                        lemma_first_match_unique(before[index as int], key, q, p as int);
                    }
                }
                self.buckets[index][p].1 = value;
                assert(self@[index as int] == before[index as int].update(
                    p as int,
                    (before[index as int][p as int].0, value),
                ));
            },
            None => {
                self.buckets[index].push((key, value));
            },
        }
        assert(self@.len() == before.len());
        assert(K::obeys_eq_spec() ==> self@[index as int] == bucket_put(
            before[index as int],
            key,
            value,
        ));
        assert(K::obeys_eq_spec() ==> self@ =~= before.update(
            index as int,
            bucket_put(before[index as int], key, value),
        ));
    }

    /// Sets `key` to `value`. See [`Self::insert_hashed`], which does the work
    /// once the key's hash is known.
    pub fn insert(&mut self, key: K, value: V)
        requires
            old(self).wf(),
        ensures
            final(self).wf(),
            final(self)@.len() == old(self)@.len(),
            K::obeys_eq_spec() ==> exists|hash: u64|
                final(self)@ == old(self)@.update(
                    old(self).slot(hash),
                    bucket_put(#[trigger] old(self)@[old(self).slot(hash)], key, value),
                ),
    {
        let hash: u64 = self.hash_key(&key);
        self.insert_hashed(hash, key, value);
    }

    /// The value for `key` in the bucket that `hash` selects: that of the
    /// first entry there with an equal key.
    pub fn get_hashed(&self, hash: u64, key: &K) -> (res: Option<&V>)
        requires
            self.wf(),
        ensures
            K::obeys_eq_spec() ==> (match res {
                Some(v) => Some(*v),
                None => None,
            }) == bucket_get(self@[self.slot(hash)], *key),
            res.is_some() ==> exists|p: int|
                0 <= p < self@[self.slot(hash)].len() && (#[trigger] self@[self.slot(hash)][p]).1
                    == *res.unwrap(),
    {
        let index: usize = (hash % (self.capacity as u64)) as usize;
        assert(index == self.slot(hash));
        let bucket = &self.buckets[index];
        assert(bucket@ == self@[index as int]);
        match find_key(bucket, key) {
            Some(p) => {
                proof {
                    if K::obeys_eq_spec() {
                        let q = choose|q: int| first_match(bucket@, *key, q);
                        lemma_first_match_unique(bucket@, *key, q, p as int);
                    }
                    assert(bucket@[p as int].1 == bucket[p as int].1);
                }
                Some(&bucket[p].1)
            },
            None => None,
        }
    }

    /// The value for `key`, if the key's bucket holds one. See
    /// [`Self::get_hashed`], which does the work once the key's hash is known.
    pub fn get(&self, key: &K) -> (res: Option<&V>)
        requires
            self.wf(),
        ensures
            K::obeys_eq_spec() ==> exists|hash: u64|
                (match res {
                    Some(v) => Some(*v),
                    None => None,
                }) == bucket_get(#[trigger] self@[self.slot(hash)], *key),
            res.is_some() ==> exists|b: int, p: int|
                0 <= b < self@.len() && 0 <= p < self@[b].len() && (#[trigger] self@[b][p]).1
                    == *res.unwrap(),
    {
        let hash: u64 = self.hash_key(key);
        assert(0 <= self.slot(hash) < self@.len());
        self.get_hashed(hash, key)
    }

    /// A walk over all entries, bucket by bucket.
    pub fn iter(&self) -> (it: HashMapIterator<'_, K, V>)
        ensures
            it.map() == self@,
            it.position() == (0int, 0int),
    {
        HashMapIterator::new(self)
    }
}

/// A walk over the entries of a [`HashMap`]: the buckets in order, and each
/// bucket's entries in order.
pub struct HashMapIterator<'a, K, V> {
    hashmap: &'a HashMap<K, V>,
    bucket_index: usize,
    item_index: usize,
}

impl<'a, K, V> HashMapIterator<'a, K, V> {
    /// The buckets of the map that is walked.
    pub closed spec fn map(&self) -> Seq<Seq<(K, V)>> {
        self.hashmap@
    }

    /// The bucket and the entry in it at which the walk stands.
    pub closed spec fn position(&self) -> (int, int) {
        (self.bucket_index as int, self.item_index as int)
    }

    /// A walk that stands before the first entry of `hashmap`.
    pub fn new(hashmap: &'a HashMap<K, V>) -> (it: Self)
        ensures
            it.map() == hashmap@,
            it.position() == (0int, 0int),
    {
        HashMapIterator { hashmap, bucket_index: 0, item_index: 0 }
    }

    /// The next entry of the walk, or `None` when every entry has been given.
    ///
    /// The entry is the first one at or after the current position; the walk
    /// then stands right behind it.
    pub fn next(&mut self) -> (res: Option<(&'a K, &'a V)>)
        ensures
            final(self).map() == old(self).map(),
            match next_entry(old(self).map(), old(self).position().0, old(self).position().1) {
                Some((b, i)) => {
                    &&& res.is_some()
                    &&& *res.unwrap().0 == old(self).map()[b][i].0
                    &&& *res.unwrap().1 == old(self).map()[b][i].1
                    &&& final(self).position() == (b, i + 1)
                },
                None => res.is_none() && final(self).position().0 >= old(self).map().len(),
            },
    {
        while self.bucket_index < self.hashmap.buckets.len()
            invariant
                self.map() == old(self).map(),
                self.hashmap == old(self).hashmap,
                next_entry(self.map(), self.position().0, self.position().1) == next_entry(
                    old(self).map(),
                    old(self).position().0,
                    old(self).position().1,
                ),
            decreases self.hashmap.buckets@.len() - self.bucket_index,
        {
            let bucket = &self.hashmap.buckets[self.bucket_index];
            if self.item_index < bucket.len() {
                let item = &bucket[self.item_index];
                self.item_index += 1;
                return Some((&item.0, &item.1));
            } else {
                self.bucket_index += 1;
                self.item_index = 0;
            }
        }
        None
    }
}

} // verus!
