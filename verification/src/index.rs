//! The key-to-bitset index: a mapping from string keys to packed bitsets,
//! abstracted as `Map<Seq<char>, Seq<u32>>`, together with the word-level
//! set algebra between two keys.

use vstd::prelude::*;
use vstd::string::StringExecFns;

use crate::bits::lemma_bit_and;
use crate::bits::lemma_bit_or;
use crate::bits::lemma_words_insert_all_contains;
use crate::bits::lemma_words_insert_commutes;
use crate::bits::lemma_words_insert_contains;
use crate::bits::lemma_words_insert_idempotent;
use crate::bits::lemma_words_insert_len;
use crate::bits::lemma_zero_bit_clear;
use crate::bits::word_binary;
use crate::bits::words_contain;
use crate::bits::words_insert;
use crate::bits::words_insert_all;
use crate::bits::MAX_WORDS;
use crate::bitset::bitset_binary;
use crate::bitset::bitset_ids;
use crate::bitset::bitset_insert;
use crate::bitset::bitset_test;
use crate::bitset::strictly_ascending;

verus! {

/// The one failure the index reports: a key that was never inserted into
/// was named where an entry is required.
#[derive(Clone, Copy, Debug, PartialEq, Eq, Structural)]
pub enum IndexError {
    KeyNotFound,
}

/// One key together with its packed bitset.
struct Entry {
    key: String,
    words: Vec<u32>,
}

/// The index. Each key owns exactly one growable bitset; a key appears on
/// first insertion and is never removed. Abstractly, a map from the key's
/// characters to its word sequence.
pub struct BitmapIndex {
    entries: Vec<Entry>,
}

/// The words a key holds in model `m`: its entry, or the empty sequence
/// when the key is absent.
pub open spec fn words_of(m: Map<Seq<char>, Seq<u32>>, k: Seq<char>) -> Seq<u32> {
    if m.contains_key(k) {
        m[k]
    } else {
        Seq::empty()
    }
}

/// Model of `insert`: the key's bitset (empty when the key is absent)
/// gains `id`'s bit.
pub open spec fn map_insert(m: Map<Seq<char>, Seq<u32>>, k: Seq<char>, id: u32) -> Map<
    Seq<char>,
    Seq<u32>,
> {
    m.insert(k, words_insert(words_of(m, k), id))
}

/// Model of `get`: the key exists and its bitset holds `id`.
pub open spec fn map_get(m: Map<Seq<char>, Seq<u32>>, k: Seq<char>, id: nat) -> bool {
    m.contains_key(k) && words_contain(m[k], id)
}

/// Model of `batch_insert`: every id of `ids` inserted in order. An empty
/// batch changes nothing — in particular it creates no entry.
pub open spec fn map_batch_insert(m: Map<Seq<char>, Seq<u32>>, k: Seq<char>, ids: Seq<u32>) -> Map<
    Seq<char>,
    Seq<u32>,
> {
    if ids.len() == 0 {
        m
    } else {
        m.insert(k, words_insert_all(words_of(m, k), ids))
    }
}

impl View for BitmapIndex {
    type V = Map<Seq<char>, Seq<u32>>;

    closed spec fn view(&self) -> Map<Seq<char>, Seq<u32>> {
        Map::new(
            |k: Seq<char>|
                exists|i: int|
                    0 <= i < self.entries@.len() && (#[trigger] self.entries@[i]).key@ == k,
            |k: Seq<char>|
                {
                    let i = choose|i: int|
                        0 <= i < self.entries@.len() && (#[trigger] self.entries@[i]).key@ == k;
                    self.entries@[i].words@
                },
        )
    }
}

impl BitmapIndex {
    /// Validity: keys are pairwise distinct, and every bitset is short
    /// enough that each member id fits in a `u32`.
    pub closed spec fn wf(&self) -> bool {
        &&& forall|i: int, j: int|
            #![trigger self.entries@[i], self.entries@[j]]
            0 <= i < self.entries@.len() && 0 <= j < self.entries@.len() && i != j
                ==> self.entries@[i].key@ != self.entries@[j].key@
        &&& forall|i: int|
            0 <= i < self.entries@.len() ==> (#[trigger] self.entries@[i]).words@.len()
                <= MAX_WORDS
    }

    /// The entry at position `i` is what the abstract map holds under its
    /// key.
    proof fn lemma_view_entry(&self, i: int)
        requires
            self.wf(),
            0 <= i < self.entries@.len(),
        ensures
            self@.contains_key(self.entries@[i].key@),
            self@[self.entries@[i].key@] == self.entries@[i].words@,
    {
        let k = self.entries@[i].key@;
        assert(self@.contains_key(k));
        let j = choose|j: int| 0 <= j < self.entries@.len() && (self.entries@[j]).key@ == k;
        assert(j == i);
    }

    /// A key no entry carries is absent from the abstract map.
    proof fn lemma_view_absent(&self, k: Seq<char>)
        requires
            forall|i: int| 0 <= i < self.entries@.len() ==> (#[trigger] self.entries@[i]).key@ != k,
        ensures
            !self@.contains_key(k),
    {
    }

    /// Replacing the words of one entry (key unchanged) updates exactly
    /// that key in the abstract map.
    proof fn lemma_view_update(pre: Self, post: Self, i: int)
        requires
            pre.wf(),
            0 <= i < pre.entries@.len(),
            post.entries@.len() == pre.entries@.len(),
            forall|a: int|
                0 <= a < pre.entries@.len() && a != i ==> post.entries@[a] == pre.entries@[a],
            post.entries@[i].key@ == pre.entries@[i].key@,
            post.entries@[i].words@.len() <= MAX_WORDS,
        ensures
            post.wf(),
            post@ == pre@.insert(pre.entries@[i].key@, post.entries@[i].words@),
    {
        assert forall|a: int| 0 <= a < post.entries@.len() implies (#[trigger] post.entries@[a]).key@
            == pre.entries@[a].key@ by {}
        assert(post.wf());
        let k0 = pre.entries@[i].key@;
        let m2 = pre@.insert(k0, post.entries@[i].words@);
        pre.lemma_view_entry(i);
        assert forall|k: Seq<char>| post@.contains_key(k) == m2.contains_key(k) by {
            if post@.contains_key(k) {
                let a = choose|a: int|
                    0 <= a < post.entries@.len() && (post.entries@[a]).key@ == k;
                assert(pre.entries@[a].key@ == k);
                assert(pre@.contains_key(k));
            }
            if m2.contains_key(k) {
                if k == k0 {
                    assert(post.entries@[i].key@ == k);
                    assert(post@.contains_key(k));
                } else {
                    let a = choose|a: int|
                        0 <= a < pre.entries@.len() && (pre.entries@[a]).key@ == k;
                    assert(post.entries@[a].key@ == k);
                    assert(post@.contains_key(k));
                }
            }
        }
        assert forall|k: Seq<char>| post@.contains_key(k) implies post@[k] == m2[k] by {
            let a = choose|a: int| 0 <= a < post.entries@.len() && (post.entries@[a]).key@ == k;
            post.lemma_view_entry(a);
            if k == k0 {
                assert(a == i);
            } else {
                assert(a != i);
                pre.lemma_view_entry(a);
            }
        }
        assert(post@ =~= m2);
    }

    /// Appending an entry under a fresh key inserts exactly that key into
    /// the abstract map.
    proof fn lemma_view_push(pre: Self, post: Self, k: Seq<char>)
        requires
            pre.wf(),
            post.entries@.len() == pre.entries@.len() + 1,
            forall|a: int|
                0 <= a < pre.entries@.len() ==> post.entries@[a] == pre.entries@[a],
            post.entries@.last().key@ == k,
            forall|i: int| 0 <= i < pre.entries@.len() ==> (#[trigger] pre.entries@[i]).key@ != k,
            post.entries@.last().words@.len() <= MAX_WORDS,
        ensures
            post.wf(),
            post@ == pre@.insert(k, post.entries@.last().words@),
    {
        let n = pre.entries@.len() as int;
        assert(post.wf());
        pre.lemma_view_absent(k);
        let m2 = pre@.insert(k, post.entries@.last().words@);
        assert forall|x: Seq<char>| post@.contains_key(x) == m2.contains_key(x) by {
            if post@.contains_key(x) {
                let a = choose|a: int|
                    0 <= a < post.entries@.len() && (post.entries@[a]).key@ == x;
                if a < n {
                    assert(pre.entries@[a].key@ == x);
                    assert(pre@.contains_key(x));
                } else {
                    assert(x == k);
                }
            }
            if m2.contains_key(x) {
                if x == k {
                    assert(post.entries@[n].key@ == x);
                    assert(post@.contains_key(x));
                } else {
                    let a = choose|a: int|
                        0 <= a < pre.entries@.len() && (pre.entries@[a]).key@ == x;
                    assert(post.entries@[a].key@ == x);
                    assert(post@.contains_key(x));
                }
            }
        }
        assert forall|x: Seq<char>| post@.contains_key(x) implies post@[x] == m2[x] by {
            let a = choose|a: int| 0 <= a < post.entries@.len() && (post.entries@[a]).key@ == x;
            post.lemma_view_entry(a);
            if x == k {
                assert(a == n);
            } else {
                assert(a < n);
                pre.lemma_view_entry(a);
            }
        }
        assert(post@ =~= m2);
    }

    /// Finds the position of `key`'s entry, scanning in insertion order.
    fn find(&self, key: &String) -> (r: Option<usize>)
        ensures
            match r {
                Some(i) => i < self.entries@.len() && self.entries@[i as int].key@ == key@,
                None => forall|i: int|
                    0 <= i < self.entries@.len() ==> (#[trigger] self.entries@[i]).key@ != key@,
            },
    {
        let n = self.entries.len();
        let mut i: usize = 0;
        while i < n
            invariant
                n == self.entries@.len(),
                i <= n,
                forall|a: int| 0 <= a < i ==> (#[trigger] self.entries@[a]).key@ != key@,
            decreases n - i,
        {
            if self.entries[i].key == *key {
                return Some(i);
            }
            i = i + 1;
        }
        None
    }

    /// Creates an empty index: no keys at all.
    pub fn new() -> (r: BitmapIndex)
        ensures
            r.wf(),
            r@ == Map::<Seq<char>, Seq<u32>>::empty(),
    {
        let r = BitmapIndex { entries: Vec::new() };
        proof {
            assert(r@ =~= Map::<Seq<char>, Seq<u32>>::empty());
        }
        r
    }

    /// Inserts `id` under `key`, creating the key's bitset on first use:
    /// afterwards the key maps to its old bitset (empty when the key was
    /// absent) with `id`'s bit set.
    pub fn insert(&mut self, key: String, id: u32)
        requires
            old(self).wf(),
        ensures
            final(self).wf(),
            final(self)@ == map_insert(old(self)@, key@, id),
    {
        proof {
            assert(id as nat / 32 + 1 <= MAX_WORDS);
        }
        let ghost pre = *self;
        match self.find(&key) {
            Some(i) => {
                proof {
                    pre.lemma_view_entry(i as int);
                    lemma_words_insert_len(pre.entries@[i as int].words@, id);
                }
                bitset_insert(&mut self.entries[i].words, id);
                proof {
                    Self::lemma_view_update(pre, *self, i as int);
                }
            },
            None => {
                proof {
                    pre.lemma_view_absent(key@);
                    lemma_words_insert_len(Seq::<u32>::empty(), id);
                }
                let ghost kview = key@;
                let mut words: Vec<u32> = Vec::new();
                bitset_insert(&mut words, id);
                self.entries.push(Entry { key, words });
                proof {
                    Self::lemma_view_push(pre, *self, kview);
                }
            },
        }
    }

    /// Membership: `false` when the key is absent or the bit is unset —
    /// the two states are indistinguishable here, unlike in
    /// `get_as_binary`.
    pub fn get(&self, key: &str, id: usize) -> (r: bool)
        requires
            self.wf(),
        ensures
            r == map_get(self@, key@, id as nat),
    {
        let k = String::from_str(key);
        match self.find(&k) {
            Some(i) => {
                proof {
                    self.lemma_view_entry(i as int);
                }
                bitset_test(&self.entries[i].words, id)
            },
            None => {
                proof {
                    self.lemma_view_absent(key@);
                }
                false
            },
        }
    }

    /// Enumerates the key's ids in strictly ascending order, with no
    /// duplicates: exactly the ids whose bit is set. Empty when the key is
    /// absent.
    pub fn list(&self, key: &str) -> (r: Vec<u32>)
        requires
            self.wf(),
        ensures
            strictly_ascending(r@),
            forall|id: u32| #[trigger] r@.contains(id) == map_get(self@, key@, id as nat),
            !self@.contains_key(key@) ==> r@ == Seq::<u32>::empty(),
    {
        let k = String::from_str(key);
        match self.find(&k) {
            Some(i) => {
                proof {
                    self.lemma_view_entry(i as int);
                }
                bitset_ids(&self.entries[i].words)
            },
            None => {
                proof {
                    self.lemma_view_absent(key@);
                }
                let r: Vec<u32> = Vec::new();
                proof {
                    assert(r@ =~= Seq::<u32>::empty());
                }
                r
            },
        }
    }

    /// A copy of the raw packed words held under `key`; empty when the key
    /// is absent. This exposes word values, not ids.
    pub fn list_keys(&self, key: &str) -> (r: Vec<u32>)
        requires
            self.wf(),
        ensures
            r@ == words_of(self@, key@),
    {
        let k = String::from_str(key);
        match self.find(&k) {
            Some(i) => {
                proof {
                    self.lemma_view_entry(i as int);
                }
                let r = self.entries[i].words.clone();
                proof {
                    assert(r@ =~= self.entries@[i as int].words@);
                }
                r
            },
            None => {
                proof {
                    self.lemma_view_absent(key@);
                }
                let r: Vec<u32> = Vec::new();
                proof {
                    assert(r@ =~= Seq::<u32>::empty());
                }
                r
            },
        }
    }

    /// Applies `insert` once per id of `ids`, in the given order. The
    /// final state does not depend on the order or on duplicates in the
    /// batch, but an empty batch creates no entry.
    pub fn batch_insert(&mut self, key: String, ids: Vec<u32>)
        requires
            old(self).wf(),
        ensures
            final(self).wf(),
            final(self)@ == map_batch_insert(old(self)@, key@, ids@),
    {
        let n = ids.len();
        let mut i: usize = 0;
        while i < n
            invariant
                self.wf(),
                n == ids@.len(),
                i <= n,
                self@ == map_batch_insert(old(self)@, key@, ids@.subrange(0, i as int)),
            decreases n - i,
        {
            let id = ids[i];
            self.insert(key.clone(), id);
            proof {
                lemma_map_batch_insert_step(old(self)@, key@, ids@, i as int);
            }
            i = i + 1;
        }
        proof {
            assert(ids@.subrange(0, n as int) =~= ids@);
        }
    }
    /// Renders the key's words as 32-character binary strings, bit 31
    /// leftmost; fails with `KeyNotFound` when the key was never inserted
    /// into — a hard failure, unlike `list` and `get`.
    pub fn get_as_binary(&self, key: &str) -> (r: Result<Vec<String>, IndexError>)
        requires
            self.wf(),
        ensures
            r is Ok <==> self@.contains_key(key@),
            r matches Ok(v) ==> v@.len() == self@[key@].len() && (forall|i: int|
                0 <= i < v@.len() ==> (#[trigger] v@[i])@ == word_binary(self@[key@][i])),
            r is Err ==> r == Result::<Vec<String>, IndexError>::Err(IndexError::KeyNotFound),
    {
        let k = String::from_str(key);
        match self.find(&k) {
            Some(i) => {
                proof {
                    self.lemma_view_entry(i as int);
                }
                Ok(bitset_binary(&self.entries[i].words))
            },
            None => {
                proof {
                    self.lemma_view_absent(key@);
                }
                Err(IndexError::KeyNotFound)
            },
        }
    }

    /// The ids present under both keys, strictly ascending; fails with
    /// `KeyNotFound` when either key is absent. The scan is bounded by the
    /// first key's word count; a position the second key's words do not
    /// reach counts as an all-zero word, so the result is exactly the
    /// intersection.
    pub fn and_operation(&self, key1: &str, key2: &str) -> (r: Result<Vec<u32>, IndexError>)
        requires
            self.wf(),
        ensures
            r is Ok <==> self@.contains_key(key1@) && self@.contains_key(key2@),
            r matches Ok(v) ==> strictly_ascending(v@) && (forall|id: u32|
                #[trigger] v@.contains(id) == (map_get(self@, key1@, id as nat) && map_get(
                    self@,
                    key2@,
                    id as nat,
                ))),
            r is Err ==> r == Result::<Vec<u32>, IndexError>::Err(IndexError::KeyNotFound),
    {
        let k1 = String::from_str(key1);
        let k2 = String::from_str(key2);
        let o1 = self.find(&k1);
        let o2 = self.find(&k2);
        if let (Some(i1), Some(i2)) = (o1, o2) {
            proof {
                self.lemma_view_entry(i1 as int);
                self.lemma_view_entry(i2 as int);
            }
            let e1 = &self.entries[i1].words;
            let e2 = &self.entries[i2].words;
            let n = e1.len();
            let mut combined: Vec<u32> = Vec::new();
            let mut i: usize = 0;
            while i < n
                invariant
                    n == e1@.len(),
                    i <= n,
                    combined@.len() == i,
                    forall|a: int|
                        0 <= a < i ==> #[trigger] combined@[a] == (e1@[a] & (if a < e2@.len() {
                            e2@[a]
                        } else {
                            0u32
                        })),
                decreases n - i,
            {
                let w2 = if i < e2.len() {
                    e2[i]
                } else {
                    0u32
                };
                let w1 = e1[i];
                combined.push(w1 & w2);
                i = i + 1;
            }
            let v = bitset_ids(&combined);
            proof {
                assert forall|id: u32|
                    #[trigger] words_contain(combined@, id as nat) == (words_contain(
                        e1@,
                        id as nat,
                    ) && words_contain(e2@, id as nat)) by {
                    let xi = id as int / 32;
                    let xj = (id % 32) as u32;
                    if 0 <= xi < combined@.len() {
                        let w2 = if xi < e2@.len() {
                            e2@[xi]
                        } else {
                            0u32
                        };
                        lemma_bit_and(e1@[xi], w2, xj);
                        if xi >= e2@.len() {
                            lemma_zero_bit_clear(xj);
                        }
                    }
                }
            }
            Ok(v)
        } else {
            proof {
                if o1 is None {
                    self.lemma_view_absent(key1@);
                }
                if o2 is None {
                    self.lemma_view_absent(key2@);
                }
            }
            Err(IndexError::KeyNotFound)
        }
    }

    /// The ids present under at least one of the two keys, strictly
    /// ascending, each id reported once. When either key is absent the
    /// result is empty — not the other key's set, and not a failure.
    pub fn or_operation(&self, key1: &str, key2: &str) -> (r: Vec<u32>)
        requires
            self.wf(),
        ensures
            strictly_ascending(r@),
            self@.contains_key(key1@) && self@.contains_key(key2@) ==> (forall|id: u32|
                #[trigger] r@.contains(id) == (map_get(self@, key1@, id as nat) || map_get(
                    self@,
                    key2@,
                    id as nat,
                ))),
            !(self@.contains_key(key1@) && self@.contains_key(key2@)) ==> r@ == Seq::<
                u32,
            >::empty(),
    {
        let k1 = String::from_str(key1);
        let k2 = String::from_str(key2);
        let o1 = self.find(&k1);
        let o2 = self.find(&k2);
        if let (Some(i1), Some(i2)) = (o1, o2) {
            proof {
                self.lemma_view_entry(i1 as int);
                self.lemma_view_entry(i2 as int);
            }
            let e1 = &self.entries[i1].words;
            let e2 = &self.entries[i2].words;
            let n = if e1.len() > e2.len() {
                e1.len()
            } else {
                e2.len()
            };
            let mut combined: Vec<u32> = Vec::new();
            let mut i: usize = 0;
            while i < n
                invariant
                    n == if e1@.len() > e2@.len() {
                        e1@.len()
                    } else {
                        e2@.len()
                    },
                    i <= n,
                    combined@.len() == i,
                    forall|a: int|
                        0 <= a < i ==> #[trigger] combined@[a] == ((if a < e1@.len() {
                            e1@[a]
                        } else {
                            0u32
                        }) | (if a < e2@.len() {
                            e2@[a]
                        } else {
                            0u32
                        })),
                decreases n - i,
            {
                let w1 = if i < e1.len() {
                    e1[i]
                } else {
                    0u32
                };
                let w2 = if i < e2.len() {
                    e2[i]
                } else {
                    0u32
                };
                combined.push(w1 | w2);
                i = i + 1;
            }
            let v = bitset_ids(&combined);
            proof {
                assert forall|id: u32|
                    #[trigger] words_contain(combined@, id as nat) == (words_contain(
                        e1@,
                        id as nat,
                    ) || words_contain(e2@, id as nat)) by {
                    let xi = id as int / 32;
                    let xj = (id % 32) as u32;
                    if 0 <= xi < combined@.len() {
                        let w1 = if xi < e1@.len() {
                            e1@[xi]
                        } else {
                            0u32
                        };
                        let w2 = if xi < e2@.len() {
                            e2@[xi]
                        } else {
                            0u32
                        };
                        lemma_bit_or(w1, w2, xj);
                        if xi >= e1@.len() || xi >= e2@.len() {
                            lemma_zero_bit_clear(xj);
                        }
                    }
                }
            }
            v
        } else {
            proof {
                if o1 is None {
                    self.lemma_view_absent(key1@);
                }
                if o2 is None {
                    self.lemma_view_absent(key2@);
                }
            }
            let r: Vec<u32> = Vec::new();
            proof {
                assert(r@ =~= Seq::<u32>::empty());
            }
            r
        }
    }
}

/// After `insert(k, id)`, `get(k, id)` reports true, whatever the index
/// held before.
pub proof fn lemma_insert_then_get(m: Map<Seq<char>, Seq<u32>>, k: Seq<char>, id: u32)
    ensures
        map_get(map_insert(m, k, id), k, id as nat),
{
    lemma_words_insert_contains(words_of(m, k), id, id);
}

/// Inserting the same id twice leaves the index exactly as one insertion
/// does: the same map, hence the same `list(k)`.
pub proof fn lemma_insert_idempotent(m: Map<Seq<char>, Seq<u32>>, k: Seq<char>, id: u32)
    ensures
        map_insert(map_insert(m, k, id), k, id) == map_insert(m, k, id),
{
    let w = words_of(m, k);
    let m1 = map_insert(m, k, id);
    assert(words_of(m1, k) == words_insert(w, id));
    lemma_words_insert_idempotent(w, id);
    assert(map_insert(m1, k, id) =~= m1);
}

/// Membership after one insertion: exactly the old members plus `id`.
/// With `list`'s contract and the empty starting map, a key's members are
/// precisely the ids ever inserted for it.
pub proof fn lemma_insert_members(m: Map<Seq<char>, Seq<u32>>, k: Seq<char>, id: u32, x: u32)
    ensures
        map_get(map_insert(m, k, id), k, x as nat) == (map_get(m, k, x as nat) || x == id),
{
    lemma_words_insert_contains(words_of(m, k), id, x);
}

/// Two insertions under one key commute: a batch's final state does not
/// depend on the order in which its ids arrive.
pub proof fn lemma_insert_commutes(m: Map<Seq<char>, Seq<u32>>, k: Seq<char>, a: u32, b: u32)
    ensures
        map_insert(map_insert(m, k, a), k, b) == map_insert(map_insert(m, k, b), k, a),
{
    let w = words_of(m, k);
    lemma_words_insert_commutes(w, a, b);
    assert(words_of(map_insert(m, k, a), k) == words_insert(w, a));
    assert(words_of(map_insert(m, k, b), k) == words_insert(w, b));
    assert(map_insert(map_insert(m, k, a), k, b) =~= map_insert(map_insert(m, k, b), k, a));
}

/// Membership after a batch: exactly the old members plus the ids of the
/// batch, however often each one occurs in it.
pub proof fn lemma_batch_insert_members(
    m: Map<Seq<char>, Seq<u32>>,
    k: Seq<char>,
    ids: Seq<u32>,
    x: u32,
)
    ensures
        map_get(map_batch_insert(m, k, ids), k, x as nat) == (map_get(m, k, x as nat)
            || ids.contains(x)),
{
    if ids.len() == 0 {
        assert(!ids.contains(x));
    } else {
        lemma_words_insert_all_contains(words_of(m, k), ids, x);
    }
}

/// One more insertion extends the batch model by one id.
proof fn lemma_map_batch_insert_step(m: Map<Seq<char>, Seq<u32>>, k: Seq<char>, ids: Seq<u32>, i: int)
    requires
        0 <= i < ids.len(),
    ensures
        map_insert(map_batch_insert(m, k, ids.subrange(0, i)), k, ids[i]) == map_batch_insert(
            m,
            k,
            ids.subrange(0, i + 1),
        ),
{
    let pre = ids.subrange(0, i);
    let cur = ids.subrange(0, i + 1);
    assert(cur.drop_last() =~= pre);
    assert(cur.last() == ids[i]);
    if i == 0 {
        let w0 = words_of(m, k);
        assert(map_batch_insert(m, k, pre) == m);
        assert(words_insert_all(w0, cur.drop_last()) == w0);
        assert(words_insert_all(w0, cur) == words_insert(w0, ids[i]));
    } else {
        let w0 = words_of(m, k);
        let mid = map_batch_insert(m, k, pre);
        assert(mid == m.insert(k, words_insert_all(w0, pre)));
        assert(words_of(mid, k) == words_insert_all(w0, pre));
        assert(words_insert_all(w0, cur) == words_insert(words_insert_all(w0, pre), ids[i]));
        assert(mid.insert(k, words_insert_all(w0, cur)) =~= m.insert(k, words_insert_all(w0, cur)));
    }
}

} // verus!
