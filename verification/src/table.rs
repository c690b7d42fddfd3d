use std::collections::HashMap;
use vstd::prelude::*;

verus! {

broadcast use vstd::std_specs::hash::group_hash_axioms;

/// One key of a table with what it stands for.
#[derive(Debug)]
pub struct Slot<V> {
    pub key: Vec<u32>,
    pub value: V,
}

/// A map whose keys are sequences of numbers. The slots are spread over
/// buckets by a hash of the key, so that a lookup reads one bucket only.
///
/// Its view is the map from each key to its value.
#[derive(Debug)]
pub struct SeqTable<V> {
    buckets: HashMap<u64, Vec<Slot<V>>>,
}

spec fn hash_step(hash: u64, item: u32) -> u64 {
    (hash ^ (item as u64)).wrapping_mul(0x100_0000_01b3)
}

/// The bucket that a key belongs to.
spec fn hash_of(key: Seq<u32>) -> u64
    decreases key.len(),
{
    if key.len() == 0 {
        0xcbf2_9ce4_8422_2325
    } else {
        hash_step(hash_of(key.drop_last()), key.last())
    }
}

/// The place of the first slot of `bucket`, from `from` on, with the key
/// `key`.
spec fn find_from<V>(bucket: Seq<Slot<V>>, key: Seq<u32>, from: int) -> Option<int>
    decreases bucket.len() - from,
{
    if from < 0 || from >= bucket.len() {
        None
    } else if bucket[from].key@ == key {
        Some(from)
    } else {
        find_from(bucket, key, from + 1)
    }
}

proof fn lemma_find_bounds<V>(bucket: Seq<Slot<V>>, key: Seq<u32>, from: int)
    requires
        0 <= from,
    ensures
        find_from(bucket, key, from) matches Some(at) ==> from <= at < bucket.len() && bucket[at].key@
            == key,
        find_from(bucket, key, from) is None ==> forall|i: int|
            from <= i < bucket.len() ==> bucket[i].key@ != key,
    decreases bucket.len() - from,
{
    if from < bucket.len() && bucket[from].key@ != key {
        lemma_find_bounds(bucket, key, from + 1);
    }
}

proof fn lemma_find_push<V>(bucket: Seq<Slot<V>>, slot: Slot<V>, key: Seq<u32>, from: int)
    requires
        0 <= from <= bucket.len(),
    ensures
        slot.key@ != key ==> find_from(bucket.push(slot), key, from) == find_from(bucket, key, from),
        slot.key@ == key && find_from(bucket, key, from) is None ==> find_from(
            bucket.push(slot),
            key,
            from,
        ) == Some(bucket.len() as int),
    decreases bucket.len() - from,
{
    if from < bucket.len() {
        assert(bucket.push(slot)[from] == bucket[from]);
        if bucket[from].key@ != key {
            lemma_find_push(bucket, slot, key, from + 1);
        }
    } else {
        assert(bucket.push(slot)[from] == slot);
        assert(find_from(bucket.push(slot), key, from + 1) is None);
    }
}

fn hash_key(key: &Vec<u32>) -> (hash: u64)
    ensures
        hash == hash_of(key@),
{
    let mut hash: u64 = 0xcbf2_9ce4_8422_2325;
    let mut i: usize = 0;
    assert(key@.take(0) =~= Seq::<u32>::empty());
    while i < key.len()
        invariant
            i <= key@.len(),
            hash == hash_of(key@.take(i as int)),
        decreases key@.len() - i,
    {
        assert(key@.take(i + 1).drop_last() =~= key@.take(i as int));
        hash = (hash ^ (key[i] as u64)).wrapping_mul(0x100_0000_01b3);
        i += 1;
    }
    assert(key@.take(i as int) =~= key@);
    hash
}

fn same_key(a: &Vec<u32>, b: &Vec<u32>) -> (r: bool)
    ensures
        r == (a@ == b@),
{
    if a.len() != b.len() {
        return false;
    }
    let mut i: usize = 0;
    while i < a.len()
        invariant
            a@.len() == b@.len(),
            i <= a@.len(),
            forall|j: int| 0 <= j < i ==> a@[j] == b@[j],
        decreases a@.len() - i,
    {
        if a[i] != b[i] {
            return false;
        }
        i += 1;
    }
    assert(a@ =~= b@);
    true
}

impl<V> View for SeqTable<V> {
    type V = Map<Seq<u32>, V>;

    closed spec fn view(&self) -> Map<Seq<u32>, V> {
        Map::new(
            |key: Seq<u32>|
                self.buckets@.contains_key(hash_of(key)) && find_from(
                    self.buckets@[hash_of(key)]@,
                    key,
                    0,
                ) is Some,
            |key: Seq<u32>|
                self.buckets@[hash_of(key)]@[find_from(
                    self.buckets@[hash_of(key)]@,
                    key,
                    0,
                ).unwrap()].value,
        )
    }
}

impl<V> SeqTable<V> {
    /// A table without a key.
    pub fn new() -> (r: Self)
        ensures
            r@ == Map::<Seq<u32>, V>::empty(),
    {
        let r = SeqTable { buckets: HashMap::new() };
        assert(r@ =~= Map::<Seq<u32>, V>::empty());
        r
    }

    /// What stands under `key`, if anything does.
    pub fn get(&self, key: &Vec<u32>) -> (r: Option<&V>)
        ensures
            r == (if self@.contains_key(key@) {
                Some(&self@[key@])
            } else {
                None
            }),
    {
        let hash = hash_key(key);
        match self.buckets.get(&hash) {
            None => None,
            Some(bucket) => {
                let mut i: usize = 0;
                while i < bucket.len()
                    invariant
                        i <= bucket@.len(),
                        hash == hash_of(key@),
                        self.buckets@.contains_key(hash) && self.buckets@[hash] == *bucket,
                        find_from(bucket@, key@, 0) == find_from(bucket@, key@, i as int),
                    decreases bucket@.len() - i,
                {
                    if same_key(&bucket[i].key, key) {
                        assert(self.buckets@.contains_key(hash) && self.buckets@[hash] == *bucket);
                        assert(find_from(bucket@, key@, 0) == Some(i as int));
                        assert(self@.contains_key(key@));
                        assert(self@[key@] == bucket@[i as int].value);
                        return Some(&bucket[i].value);
                    }
                    i += 1;
                }
                assert(self.buckets@.contains_key(hash) && self.buckets@[hash] == *bucket);
                assert(find_from(bucket@, key@, 0) is None);
                None
            },
        }
    }

    /// Puts `value` under `key`, which the table does not hold yet.
    pub fn insert(&mut self, key: Vec<u32>, value: V)
        requires
            !old(self)@.contains_key(key@),
        ensures
            final(self)@ == old(self)@.insert(key@, value),
    {
        let hash = hash_key(&key);
        let ghost before = self.buckets@;
        let ghost old_bucket = if before.contains_key(hash) {
            before[hash]@
        } else {
            Seq::<Slot<V>>::empty()
        };
        let mut bucket = match self.buckets.remove(&hash) {
            Some(bucket) => bucket,
            None => Vec::new(),
        };
        assert(bucket@ == old_bucket);
        let ghost slot = Slot { key, value };
        bucket.push(Slot { key, value });
        self.buckets.insert(hash, bucket);
        proof {
            assert(find_from(old_bucket, slot.key@, 0) is None);
            assert forall|k: Seq<u32>|
                #[trigger] final(self)@.contains_key(k) == old(self)@.insert(
                    slot.key@,
                    slot.value,
                ).contains_key(k) && (final(self)@.contains_key(k) ==> final(self)@[k] == old(
                    self,
                )@.insert(slot.key@, slot.value)[k]) by {
                if hash_of(k) == hash {
                    lemma_find_push(old_bucket, slot, k, 0);
                    lemma_find_bounds(old_bucket, k, 0);
                    assert(self.buckets@[hash]@ == old_bucket.push(slot));
                }
            }
            assert(final(self)@ =~= old(self)@.insert(slot.key@, slot.value));
        }
    }
}

} // verus!
