//! The best estimate with which each state of the search has been expanded.

use std::collections::HashMap;
use std::hash::Hasher;

use vstd::prelude::*;

use crate::bitplane::{lemma_unpack_injective, BitPlane};
use crate::fxhash::{fx_add, fx_bytes, FxHasher};

verus! {

/// A state of the search: the boxes and the first position of the player's region.
pub ghost struct StateModel {
    pub boxes: Seq<bool>,
    pub player: int,
}

/// A state with a number.
pub struct Entry {
    pub boxes: BitPlane,
    pub player: u16,
    pub best: u64,
}

impl Entry {
    /// The state of the entry.
    pub open spec fn key(&self) -> StateModel {
        StateModel { boxes: self.boxes@, player: self.player as int }
    }
}

/// Numbers by state, in buckets by the hash of the state.
pub struct Table {
    pub buckets: HashMap<u64, Vec<Entry>>,
    pub contents: Ghost<Map<StateModel, int>>,
}

/// The hash of a state.
pub open spec fn state_hash(bytes: Seq<u8>, player: u16) -> u64 {
    fx_bytes(fx_add(0, player as u64), bytes)
}

fn hash_of(boxes: &BitPlane, player: u16) -> (r: u64)
    ensures
        r == state_hash(boxes.bytes(), player),
{
    let mut hasher = FxHasher { hash: 0 };
    hasher.write_u16(player);
    hasher.write(boxes.as_bytes());
    hasher.finish()
}

/// Whether two planes hold the same bytes.
fn same_bytes(a: &BitPlane, b: &BitPlane) -> (r: bool)
    ensures
        r == (a@ == b@),
{
    let (x, y) = (a.as_bytes(), b.as_bytes());
    let n = x.len();
    let mut equal = n == y.len();
    let mut k: usize = 0;
    while k < n && equal
        invariant
            k <= n,
            n == x@.len(),
            equal ==> n == y@.len() && forall|j: int| 0 <= j < k ==> x@[j] == y@[j],
            !equal ==> x@ != y@,
        decreases n - k,
    {
        if x[k] != y[k] {
            assert(x@[k as int] != y@[k as int]);
            equal = false;
        }
        k += 1;
    }
    proof {
        if equal {
            assert(x@ =~= y@);
        } else if a@ == b@ {
            lemma_unpack_injective(a.bytes(), b.bytes());
        }
    }
    equal
}

/// No two entries of a bucket have the same state.
pub open spec fn distinct_keys(bucket: Seq<Entry>) -> bool {
    forall|i: int, j: int|
        0 <= i < j < bucket.len() ==> (#[trigger] bucket[i]).key() != (#[trigger] bucket[j]).key()
}

/// Position `i` of the bucket with hash `h` holds the state.
pub open spec fn holds(
    buckets: Map<u64, Vec<Entry>>,
    h: u64,
    i: int,
    key: StateModel,
) -> bool {
    &&& buckets.contains_key(h)
    &&& 0 <= i < buckets[h]@.len()
    &&& buckets[h]@[i].key() == key
}

impl View for Table {
    type V = Map<StateModel, int>;

    open spec fn view(&self) -> Map<StateModel, int> {
        self.contents@
    }
}

impl Table {
    /// Every entry is in the bucket of its hash and has its number, every state is in an entry.
    pub open spec fn wf(&self) -> bool {
        let b = self.buckets@;
        &&& forall|h: u64| #[trigger] b.contains_key(h) ==> distinct_keys(b[h]@)
        &&& forall|h: u64, i: int|
            b.contains_key(h) && 0 <= i < b[h]@.len() ==> {
                let e = #[trigger] b[h]@[i];
                &&& state_hash(e.boxes.bytes(), e.player) == h
                &&& self@.contains_key(e.key())
                &&& self@[e.key()] == e.best
            }
        &&& forall|key: StateModel| #[trigger]
            self@.contains_key(key) ==> exists|h: u64, i: int| #[trigger] holds(b, h, i, key)
    }

    /// An empty table.
    pub fn new() -> (r: Self)
        ensures
            r.wf(),
            r@ == Map::<StateModel, int>::empty(),
    {
        Table { buckets: HashMap::new(), contents: Ghost(Map::empty()) }
    }

    /// A state of the table is in the bucket of its hash.
    proof fn lemma_bucket(&self, boxes: &BitPlane, player: u16)
        requires
            self.wf(),
            self@.contains_key(StateModel { boxes: boxes@, player: player as int }),
        ensures
            exists|i: int| #[trigger]
                holds(
                    self.buckets@,
                    state_hash(boxes.bytes(), player),
                    i,
                    StateModel { boxes: boxes@, player: player as int },
                ),
    {
        let key = StateModel { boxes: boxes@, player: player as int };
        let (h, i) = choose|h: u64, i: int| #[trigger] holds(self.buckets@, h, i, key);
        let e = self.buckets@[h]@[i];
        assert(e.key() == key);
        lemma_unpack_injective(e.boxes.bytes(), boxes.bytes());
        assert(holds(self.buckets@, state_hash(boxes.bytes(), player), i, key));
    }

    /// The number of a state.
    pub fn get(&self, boxes: &BitPlane, player: u16) -> (r: Option<u64>)
        requires
            self.wf(),
        ensures
            ({
                let key = StateModel { boxes: boxes@, player: player as int };
                match r {
                    Some(best) => self@.contains_key(key) && self@[key] == best,
                    None => !self@.contains_key(key),
                }
            }),
    {
        let ghost key = StateModel { boxes: boxes@, player: player as int };
        let h = hash_of(boxes, player);
        match self.buckets.get(&h) {
            None => {
                proof {
                    if self@.contains_key(key) {
                        self.lemma_bucket(boxes, player);
                    }
                }
                None
            },
            Some(bucket) => {
                let mut k: usize = 0;
                while k < bucket.len()
                    invariant
                        self.wf(),
                        self.buckets@.contains_key(h),
                        *bucket == self.buckets@[h],
                        k <= bucket@.len(),
                        key == (StateModel { boxes: boxes@, player: player as int }),
                        forall|j: int| 0 <= j < k ==> (#[trigger] bucket@[j]).key() != key,
                    decreases bucket@.len() - k,
                {
                    let e = &bucket[k];
                    assert(self.buckets@[h]@[k as int] == *e);
                    if e.player == player && same_bytes(&e.boxes, boxes) {
                        return Some(e.best);
                    }
                    k += 1;
                }
                proof {
                    if self@.contains_key(key) {
                        self.lemma_bucket(boxes, player);
                        let i = choose|i: int| #[trigger] holds(self.buckets@, h, i, key);
                        assert(bucket@[i].key() != key);
                    }
                }
                None
            },
        }
    }

    /// Give a state a number.
    pub fn insert(&mut self, boxes: BitPlane, player: u16, best: u64)
        requires
            old(self).wf(),
        ensures
            final(self).wf(),
            final(self)@ == old(self)@.insert(
                StateModel { boxes: boxes@, player: player as int },
                best as int,
            ),
    {
        let ghost key = StateModel { boxes: boxes@, player: player as int };
        let ghost b0 = self.buckets@;
        let h = hash_of(&boxes, player);
        let ghost before: Seq<Entry> = if b0.contains_key(h) {
            b0[h]@
        } else {
            Seq::empty()
        };
        let mut bucket: Vec<Entry> = match self.buckets.remove(&h) {
            Some(b) => b,
            None => Vec::new(),
        };
        assert(bucket@ =~= before);
        let mut k: usize = 0;
        while k < bucket.len() && !(bucket[k].player == player && same_bytes(
            &bucket[k].boxes,
            &boxes,
        ))
            invariant
                k <= bucket@.len(),
                bucket@ == before,
                key == (StateModel { boxes: boxes@, player: player as int }),
                forall|j: int| 0 <= j < k ==> (#[trigger] bucket@[j]).key() != key,
            decreases bucket@.len() - k,
        {
            k += 1;
        }
        let entry = Entry { boxes, player, best };
        let ghost e = entry;
        if k < bucket.len() {
            bucket[k] = entry;
        } else {
            bucket.push(entry);
        }
        let ghost after = bucket@;
        self.buckets.insert(h, bucket);
        proof {
            self.contents@ = self.contents@.insert(key, best as int);
            let b1 = self.buckets@;
            assert(b1 =~= b0.insert(h, bucket));
            assert(distinct_keys(before)) by {
                if b0.contains_key(h) {
                    assert(distinct_keys(b0[h]@));
                }
            }
            assert(after.len() == if k < before.len() {
                before.len()
            } else {
                before.len() + 1
            });
            assert forall|j: int| 0 <= j < after.len() implies (#[trigger] after[j]) == (if j == k {
                e
            } else {
                before[j]
            }) by {}
            if k < before.len() {
                assert(before[k as int].key() == key);
            }
            assert forall|j: int| 0 <= j < before.len() && j != k implies (
            #[trigger] before[j]).key() != key by {
                if j > k {
                    assert(before[k as int].key() != before[j].key());
                }
            }
            assert(distinct_keys(after)) by {
                assert forall|i: int, j: int| 0 <= i < j < after.len() implies (
                #[trigger] after[i]).key() != (#[trigger] after[j]).key() by {
                    if i != k && j != k {
                        assert(before[i].key() != before[j].key());
                    }
                }
            }
            assert forall|g: u64, i: int| b1.contains_key(g) && 0 <= i < b1[g]@.len() implies {
                let x = #[trigger] b1[g]@[i];
                &&& state_hash(x.boxes.bytes(), x.player) == g
                &&& self@.contains_key(x.key())
                &&& self@[x.key()] == x.best
            } by {
                let x = b1[g]@[i];
                if g == h {
                    if i != k {
                        assert(x == before[i]);
                        assert(b0[h]@[i] == x);
                    }
                } else {
                    assert(b0[g]@[i] == x);
                    if x.key() == key {
                        lemma_unpack_injective(x.boxes.bytes(), e.boxes.bytes());
                    }
                }
            }
            assert forall|q: StateModel| #[trigger] self@.contains_key(q) implies exists|
                g: u64,
                i: int,
            | #[trigger] holds(b1, g, i, q) by {
                if q == key {
                    assert(b1[h]@[k as int].key() == key);
                    assert(holds(b1, h, k as int, q));
                } else {
                    assert(old(self)@.contains_key(q));
                    let (g, i) = choose|g: u64, i: int| #[trigger] holds(b0, g, i, q);
                    if g == h {
                        assert(before[i].key() == q);
                        assert(after[i] == before[i]);
                    }
                    assert(holds(b1, g, i, q));
                }
            }
        }
    }
}

} // verus!
