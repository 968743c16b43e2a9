use super::hashing::HashKey;
use vstd::prelude::*;

verus! {

/// A key with its value.
pub struct Node<K, V> {
    pub key: K,
    pub value: V,
}

/// The bucket that a key with the given view belongs to.
pub open spec fn bucket_of<K: HashKey>(id: K::V, modulus: int) -> int {
    (K::hash_code(id) as int) % modulus
}

/// The node at place `i` of the bucket holds the key with the given view.
pub open spec fn holds_at<K: HashKey, V>(bucket: Seq<Node<K, V>>, i: int, id: K::V) -> bool {
    0 <= i < bucket.len() && bucket[i].key@ == id
}

/// The bucket holds the key with the given view.
pub open spec fn holds<K: HashKey, V>(bucket: Seq<Node<K, V>>, id: K::V) -> bool {
    exists|i: int| holds_at(bucket, i, id)
}

/// The place of the key with the given view in the bucket.
pub open spec fn place_of<K: HashKey, V>(bucket: Seq<Node<K, V>>, id: K::V) -> int {
    choose|i: int| holds_at(bucket, i, id)
}

/// No key occurs twice in the bucket, and every key belongs to bucket `b`.
pub open spec fn bucket_wf<K: HashKey, V>(bucket: Seq<Node<K, V>>, b: int, modulus: int) -> bool {
    &&& forall|i: int| 0 <= i < bucket.len() ==> bucket_of::<K>(#[trigger] bucket[i].key@, modulus) == b
    &&& forall|i: int, j: int|
        0 <= i < j < bucket.len() ==> (#[trigger] bucket[i]).key@ != (#[trigger] bucket[j]).key@
}

/// A hash map that keeps the keys of equal hash, taken modulo the number of
/// buckets, in one bucket.
pub struct ChainHashMap<K, V> {
    base: Vec<Vec<Node<K, V>>>,
    modulus: usize,
}

impl<K: HashKey, V> View for ChainHashMap<K, V> {
    type V = Map<K::V, V>;

    /// The map from the view of each key to its value.
    closed spec fn view(&self) -> Map<K::V, V> {
        Map::new(
            |id: K::V| holds(self.base@[bucket_of::<K>(id, self.modulus as int)]@, id),
            |id: K::V|
                {
                    let bucket = self.base@[bucket_of::<K>(id, self.modulus as int)]@;
                    bucket[place_of(bucket, id)].value
                },
        )
    }
}

impl<K: HashKey, V> Default for ChainHashMap<K, V> {
    /// An empty map with 97 buckets.
    fn default() -> (made: Self)
        ensures
            made.wf(),
            made@ == Map::<K::V, V>::empty(),
    {
        Self::new()
    }
}

/// The first place of the bucket that holds `k`.
fn position<K: HashKey, V>(bucket: &Vec<Node<K, V>>, k: &K) -> (at: Option<usize>)
    ensures
        match at {
            Some(i) => holds_at(bucket@, i as int, k@),
            None => !holds(bucket@, k@),
        },
{
    let mut i: usize = 0;
    while i < bucket.len()
        invariant
            i <= bucket@.len(),
            forall|j: int| 0 <= j < i ==> !holds_at(bucket@, j, k@),
        decreases bucket@.len() - i,
    {
        if bucket[i].key.same(k) {
            return Some(i);
        }
        i += 1;
    }
    None
}

impl<K: HashKey, V> ChainHashMap<K, V> {
    /// There is at least one bucket, and every bucket holds its own keys,
    /// each once.
    pub closed spec fn wf(&self) -> bool {
        &&& self.modulus > 0
        &&& self.base@.len() == self.modulus
        &&& forall|b: int|
            0 <= b < self.base@.len() ==> bucket_wf(
                (#[trigger] self.base@[b])@,
                b,
                self.modulus as int,
            )
    }

    /// The number of buckets.
    pub closed spec fn buckets(&self) -> nat {
        self.modulus as nat
    }

    fn hash(&self, k: &K) -> (bucket: usize)
        requires
            self.wf(),
        ensures
            bucket == bucket_of::<K>(k@, self.modulus as int),
            bucket < self.modulus,
    {
        let h: u64 = k.digest();
        (h % (self.modulus as u64)) as usize
    }

    /// An empty map with 97 buckets.
    pub fn new() -> (map: Self)
        ensures
            map.wf(),
            map@ == Map::<K::V, V>::empty(),
            map.buckets() == 97,
    {
        Self::with_capacity(97)
    }

    /// An empty map with `cap` buckets.
    pub fn with_capacity(cap: usize) -> (map: Self)
        requires
            cap > 0,
        ensures
            map.wf(),
            map@ == Map::<K::V, V>::empty(),
            map.buckets() == cap,
    {
        let mut base: Vec<Vec<Node<K, V>>> = Vec::new();
        let mut i: usize = 0;
        while i < cap
            invariant
                i <= cap,
                base@.len() == i,
                forall|b: int| 0 <= b < i ==> (#[trigger] base@[b])@.len() == 0,
            decreases cap - i,
        {
            base.push(Vec::new());
            i += 1;
        }
        let map = ChainHashMap { base, modulus: cap };
        proof {
            assert(map@ =~= Map::<K::V, V>::empty());
        }
        map
    }

    /// Maps `k` to `v` and returns the value that it had before.
    pub fn insert(&mut self, k: K, v: V) -> (prior: Option<V>)
        requires
            old(self).wf(),
        ensures
            final(self).wf(),
            final(self).buckets() == old(self).buckets(),
            final(self)@ == old(self)@.insert(k@, v),
            prior == (if old(self)@.contains_key(k@) {
                Some(old(self)@[k@])
            } else {
                None
            }),
    {
        let bucket = self.hash(&k);
        let ghost before = self.base@[bucket as int]@;
        let at = position(&self.base[bucket], &k);
        let prior = match at {
            Some(i) => {
                let mut held = v;
                std::mem::swap(&mut self.base[bucket][i].value, &mut held);
                Some(held)
            },
            None => {
                self.base[bucket].push(Node { key: k, value: v });
                None
            },
        };
        proof {
            let after = self.base@[bucket as int]@;
            let m = self.modulus as int;
            assert(bucket_wf(before, bucket as int, m));
            lemma_view_after_insert(before, after, k@, v, at);
            assert(bucket_wf(after, bucket as int, m)) by {
                assert forall|i: int| 0 <= i < after.len() implies bucket_of::<K>(
                    #[trigger] after[i].key@,
                    m,
                ) == bucket by {
                    if i < before.len() {
                        assert(bucket_of::<K>(before[i].key@, m) == bucket);
                    }
                }
            }
            assert forall|b: int| 0 <= b < self.base@.len() implies bucket_wf(
                (#[trigger] self.base@[b])@,
                b,
                m,
            ) by {
                if b != bucket {
                    assert(self.base@[b] == old(self).base@[b]);
                    assert(bucket_wf(old(self).base@[b]@, b, m));
                }
            }
            assert forall|id: K::V| #[trigger]
                final(self)@.contains_key(id) == old(self)@.insert(k@, v).contains_key(id)
                && (final(self)@.contains_key(id) ==> final(self)@[id] == old(self)@.insert(
                    k@,
                    v,
                )[id]) by {
                let b = bucket_of::<K>(id, m);
                assert(0 <= b < m);
                if b != bucket {
                    assert(self.base@[b] == old(self).base@[b]);
                }
            }
            assert(final(self)@ =~= old(self)@.insert(k@, v));
        }
        prior
    }

    /// Takes `k` out of the map and returns the value that it had.
    pub fn remove(&mut self, k: &K) -> (removed: Option<V>)
        requires
            old(self).wf(),
        ensures
            final(self).wf(),
            final(self).buckets() == old(self).buckets(),
            final(self)@ == old(self)@.remove(k@),
            removed == (if old(self)@.contains_key(k@) {
                Some(old(self)@[k@])
            } else {
                None
            }),
    {
        let bucket = self.hash(k);
        let ghost before = self.base@[bucket as int]@;
        let at = position(&self.base[bucket], k);
        let removed = match at {
            Some(i) => Some(self.base[bucket].remove(i).value),
            None => None,
        };
        proof {
            let after = self.base@[bucket as int]@;
            let m = self.modulus as int;
            assert(bucket_wf(before, bucket as int, m));
            assert forall|b: int| 0 <= b < self.base@.len() implies bucket_wf(
                (#[trigger] self.base@[b])@,
                b,
                m,
            ) by {
                if b != bucket {
                    assert(self.base@[b] == old(self).base@[b]);
                    assert(bucket_wf(old(self).base@[b]@, b, m));
                }
            }
            lemma_view_after_remove(before, after, k@, at);
            assert forall|id: K::V| #[trigger]
                final(self)@.contains_key(id) == old(self)@.remove(k@).contains_key(id) && (final(self)@.contains_key(id) ==> final(self)@[id] == old(self)@.remove(k@)[id]) by {
                let b = bucket_of::<K>(id, m);
                assert(0 <= b < m);
                if b != bucket {
                    assert(self.base@[b] == old(self).base@[b]);
                }
            }
            assert(final(self)@ =~= old(self)@.remove(k@));
        }
        removed
    }

    /// The value of `k`.
    pub fn get(&self, k: &K) -> (value: Option<&V>)
        requires
            self.wf(),
        ensures
            value == (if self@.contains_key(k@) {
                Some(&self@[k@])
            } else {
                None
            }),
    {
        let bucket = self.hash(k);
        proof {
            assert(bucket_wf(self.base@[bucket as int]@, bucket as int, self.modulus as int));
        }
        match position(&self.base[bucket], k) {
            Some(i) => {
                proof {
                    lemma_one_place(self.base@[bucket as int]@, i as int, k@);
                }
                Some(&self.base[bucket][i].value)
            },
            None => None,
        }
    }

    /// The value of `k`, to be changed in place.
    pub fn get_mut(&mut self, k: &K) -> (value: Option<&mut V>)
        requires
            old(self).wf(),
        ensures
            final(self).wf(),
            final(self).buckets() == old(self).buckets(),
            match value {
                Some(slot) => {
                    &&& old(self)@.contains_key(k@)
                    &&& *slot == old(self)@[k@]
                    &&& final(self)@ == old(self)@.insert(k@, *final(slot))
                },
                None => !old(self)@.contains_key(k@) && final(self)@ == old(self)@,
            },
    {
        let bucket = self.hash(k);
        proof {
            assert(bucket_wf(self.base@[bucket as int]@, bucket as int, self.modulus as int));
        }
        match position(&self.base[bucket], k) {
            Some(i) => {
                proof {
                    lemma_one_place(self.base@[bucket as int]@, i as int, k@);
                    assert(self@.contains_key(k@));
                    assert(self@[k@] == self.base@[bucket as int]@[i as int].value);
                    assert forall|after: Self| self.value_changed(after, bucket as int, i) implies (
                    #[trigger] after.wf()) && after@ == self@.insert(
                        k@,
                        after.base@[bucket as int]@[i as int].value,
                    ) && after.buckets() == self.buckets() by {
                        self.lemma_value_changed(after, bucket as int, i, k@);
                    }
                }
                Some(self.slot_at(bucket, i))
            },
            None => None,
        }
    }

    /// The value at place `i` of bucket `b`, to be changed in place.
    fn slot_at(&mut self, b: usize, i: usize) -> (slot: &mut V)
        requires
            b < old(self).base@.len(),
            i < old(self).base@[b as int]@.len(),
        ensures
            *slot == old(self).base@[b as int]@[i as int].value,
            old(self).value_changed(*final(self), b as int, i),
            final(self).base@[b as int]@[i as int].value == *final(slot),
    {
        &mut self.base[b][i].value
    }

    /// `after` is the map but for the value at place `i` of bucket `b`.
    spec fn value_changed(&self, after: Self, b: int, i: usize) -> bool {
        &&& after.modulus == self.modulus
        &&& after.base@.len() == self.base@.len()
        &&& forall|o: int|
            0 <= o < after.base@.len() && o != b ==> #[trigger] after.base@[o] == self.base@[o]
        &&& after.base@[b]@.len() == self.base@[b]@.len()
        &&& forall|j: int|
            0 <= j < after.base@[b]@.len() && j != i ==> #[trigger] after.base@[b]@[j]
                == self.base@[b]@[j]
        &&& after.base@[b]@[i as int].key == self.base@[b]@[i as int].key
    }

    /// A change of the value at the place of a key maps the key to the new
    /// value and leaves the rest of the map as it is.
    proof fn lemma_value_changed(&self, after: Self, b: int, i: usize, id: K::V)
        requires
            self.wf(),
            0 <= b < self.buckets(),
            b == bucket_of::<K>(id, self.buckets() as int),
            self.holds_key_at(b, i as int, id),
            self.value_changed(after, b, i),
        ensures
            after.wf(),
            after.buckets() == self.buckets(),
            after@ == self@.insert(id, after.base@[b]@[i as int].value),
    {
        let m = self.modulus as int;
        let old_bucket = self.base@[b]@;
        let new_bucket = after.base@[b]@;
        assert(bucket_wf(old_bucket, b, m));
        lemma_view_after_insert(old_bucket, new_bucket, id, new_bucket[i as int].value, Some(i));
        assert(bucket_wf(new_bucket, b, m)) by {
            assert forall|j: int| 0 <= j < new_bucket.len() implies bucket_of::<K>(
                #[trigger] new_bucket[j].key@,
                m,
            ) == b by {
                assert(bucket_of::<K>(old_bucket[j].key@, m) == b);
            }
        }
        assert forall|o: int| 0 <= o < after.base@.len() implies bucket_wf(
            (#[trigger] after.base@[o])@,
            o,
            m,
        ) by {
            if o != b {
                assert(after.base@[o] == self.base@[o]);
                assert(bucket_wf(self.base@[o]@, o, m));
            }
        }
        assert forall|other: K::V| #[trigger]
            after@.contains_key(other) == self@.insert(
                id,
                new_bucket[i as int].value,
            ).contains_key(other) && (after@.contains_key(other) ==> after@[other] == self@.insert(
                id,
                new_bucket[i as int].value,
            )[other]) by {
            let o = bucket_of::<K>(other, m);
            assert(0 <= o < m);
            if o != b {
                assert(after.base@[o] == self.base@[o]);
            }
        }
        assert(after@ =~= self@.insert(id, new_bucket[i as int].value));
    }

    /// Place `i` of bucket `b` holds the key with the given view.
    spec fn holds_key_at(&self, b: int, i: int, id: K::V) -> bool {
        0 <= b < self.base@.len() && holds_at(self.base@[b]@, i, id)
    }
}

/// In a bucket without a repeated key, the place of a key is the one place
/// that holds it.
pub proof fn lemma_one_place<K: HashKey, V>(bucket: Seq<Node<K, V>>, i: int, id: K::V)
    requires
        holds_at(bucket, i, id),
        forall|a: int, b: int|
            0 <= a < b < bucket.len() ==> (#[trigger] bucket[a]).key@ != (#[trigger] bucket[b]).key@,
    ensures
        holds(bucket, id),
        place_of(bucket, id) == i,
{
    let p = place_of(bucket, id);
    assert(holds_at(bucket, p, id));
    if p < i {
        assert(bucket[p].key@ != bucket[i].key@);
    } else if i < p {
        assert(bucket[i].key@ != bucket[p].key@);
    }
}

/// What a bucket holds after a value has been replaced at a place, or a
/// node with a new key has been put at its end.
pub proof fn lemma_view_after_insert<K: HashKey, V>(
    before: Seq<Node<K, V>>,
    after: Seq<Node<K, V>>,
    id: K::V,
    v: V,
    at: Option<usize>,
)
    requires
        forall|a: int, b: int|
            0 <= a < b < before.len() ==> (#[trigger] before[a]).key@ != (#[trigger] before[b]).key@,
        match at {
            Some(i) => holds_at(before, i as int, id) && after.len() == before.len()
                && after[i as int].key@ == id && after[i as int].value == v && forall|j: int|
                0 <= j < before.len() && j != i ==> after[j] == before[j],
            None => !holds(before, id) && after.len() == before.len() + 1 && after.last().key@
                == id && after.last().value == v && forall|j: int|
                0 <= j < before.len() ==> after[j] == before[j],
        },
    ensures
        forall|a: int, b: int|
            0 <= a < b < after.len() ==> (#[trigger] after[a]).key@ != (#[trigger] after[b]).key@,
        forall|other: K::V|
            holds(after, other) == (other == id || holds(before, other)),
        forall|other: K::V|
            holds(after, other) ==> after[place_of(after, other)].value == (if other == id {
                v
            } else {
                before[place_of(before, other)].value
            }),
        match at {
            Some(i) => holds(before, id) && place_of(before, id) == i,
            None => true,
        },
{
    match at {
        Some(i) => {
            lemma_one_place(before, i as int, id);
            assert forall|a: int, b: int| 0 <= a < b < after.len() implies (#[trigger] after[a]).key@
                != (#[trigger] after[b]).key@ by {
                assert(before[a].key@ != before[b].key@);
            }
        },
        None => {
            assert forall|a: int, b: int| 0 <= a < b < after.len() implies (#[trigger] after[a]).key@
                != (#[trigger] after[b]).key@ by {
                if b < before.len() {
                    assert(before[a].key@ != before[b].key@);
                } else {
                    assert(!holds_at(before, a, id));
                }
            }
        },
    }
    assert forall|other: K::V| holds(after, other) == (other == id || holds(before, other)) by {
        if holds(after, other) {
            let p = place_of(after, other);
            assert(holds_at(after, p, other));
            if other != id {
                assert(holds_at(before, p, other));
            }
        }
        if holds(before, other) {
            let p = place_of(before, other);
            assert(holds_at(before, p, other));
            assert(holds_at(after, p, other));
        }
        if other == id {
            match at {
                Some(i) => {
                    assert(holds_at(after, i as int, id));
                },
                None => {
                    assert(holds_at(after, after.len() - 1, id));
                },
            }
        }
    }
    assert forall|other: K::V| holds(after, other) implies after[place_of(after, other)].value
        == (if other == id {
        v
    } else {
        before[place_of(before, other)].value
    }) by {
        let p = place_of(after, other);
        assert(holds_at(after, p, other));
        if other == id {
            match at {
                Some(i) => {
                    lemma_one_place(after, i as int, id);
                },
                None => {
                    lemma_one_place(after, after.len() - 1, id);
                },
            }
        } else {
            assert(holds_at(before, p, other));
            lemma_one_place(before, p, other);
        }
    }
}

/// What a bucket holds after the node at a place has been taken out.
pub proof fn lemma_view_after_remove<K: HashKey, V>(
    before: Seq<Node<K, V>>,
    after: Seq<Node<K, V>>,
    id: K::V,
    at: Option<usize>,
)
    requires
        forall|a: int, b: int|
            0 <= a < b < before.len() ==> (#[trigger] before[a]).key@ != (#[trigger] before[b]).key@,
        match at {
            Some(i) => holds_at(before, i as int, id) && after == before.remove(i as int),
            None => !holds(before, id) && after == before,
        },
    ensures
        forall|a: int, b: int|
            0 <= a < b < after.len() ==> (#[trigger] after[a]).key@ != (#[trigger] after[b]).key@,
        forall|other: K::V| holds(after, other) == (other != id && holds(before, other)),
        forall|other: K::V|
            holds(after, other) ==> after[place_of(after, other)].value == before[place_of(
                before,
                other,
            )].value,
        match at {
            Some(i) => holds(before, id) && place_of(before, id) == i,
            None => true,
        },
{
    match at {
        Some(i) => {
            lemma_one_place(before, i as int, id);
            assert forall|j: int| 0 <= j < after.len() implies #[trigger] after[j] == before[if j
                < i {
                j
            } else {
                j + 1
            }] by {}
            assert forall|a: int, b: int| 0 <= a < b < after.len() implies (#[trigger] after[a]).key@
                != (#[trigger] after[b]).key@ by {
                let first = if a < i {
                    a
                } else {
                    a + 1
                };
                let second = if b < i {
                    b
                } else {
                    b + 1
                };
                assert(after[a] == before[first] && after[b] == before[second]);
                assert(before[first].key@ != before[second].key@);
            }
            assert forall|other: K::V|
                holds(after, other) == (other != id && holds(before, other)) by {
                if holds(after, other) {
                    let p = place_of(after, other);
                    assert(holds_at(after, p, other));
                    let origin = if p < i {
                        p
                    } else {
                        p + 1
                    };
                    assert(after[p] == before[origin]);
                    assert(holds_at(before, origin, other));
                    if other == id {
                        if origin < i {
                            assert(before[origin].key@ != before[i as int].key@);
                        } else {
                            assert(before[i as int].key@ != before[origin].key@);
                        }
                    }
                }
                if other != id && holds(before, other) {
                    let origin = place_of(before, other);
                    assert(holds_at(before, origin, other));
                    let p = if origin < i {
                        origin
                    } else {
                        origin - 1
                    };
                    assert(after[p] == before[origin]);
                    assert(holds_at(after, p, other));
                }
            }
            assert forall|other: K::V| holds(after, other) implies after[place_of(
                after,
                other,
            )].value == before[place_of(before, other)].value by {
                let p = place_of(after, other);
                assert(holds_at(after, p, other));
                let origin = if p < i {
                    p
                } else {
                    p + 1
                };
                assert(after[p] == before[origin]);
                assert(holds_at(before, origin, other));
                lemma_one_place(before, origin, other);
            }
        },
        None => {},
    }
}

} // verus!
