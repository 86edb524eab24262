//! Executable operations on one packed bitset (a `Vec<u32>` of words):
//! insertion with growth, membership test, ordered enumeration, and the
//! binary rendering, each proved against the model in `bits`.

use vstd::prelude::*;

use crate::bits::grown;
use crate::bits::word_binary;
use crate::bits::words_contain;
use crate::bits::words_insert;
use crate::bits::MAX_WORDS;

verus! {

/// True when the sequence is strictly ascending, hence free of duplicates.
pub open spec fn strictly_ascending(s: Seq<u32>) -> bool {
    forall|a: int, b: int| 0 <= a < b < s.len() ==> s[a] < s[b]
}

/// Grows `words` with zero words so that `id`'s word index is in range,
/// then sets the id's bit by OR.
pub fn bitset_insert(words: &mut Vec<u32>, id: u32)
    ensures
        final(words)@ == words_insert(old(words)@, id),
{
    let wi = (id / 32) as usize;
    let ghost orig = words@;
    while words.len() <= wi
        invariant
            orig.len() <= words@.len(),
            words@.len() <= wi + 1 || words@.len() == orig.len(),
            words@ == grown(orig, words@.len() as nat),
        decreases wi + 1 - words@.len(),
    {
        words.push(0u32);
        proof {
            assert(words@ =~= grown(orig, words@.len() as nat));
        }
    }
    proof {
        assert(words@ =~= grown(orig, (id / 32 + 1) as nat));
    }
    let w = words[wi];
    words[wi] = w | (1u32 << (id % 32));
}

/// Membership test: `false` when `id`'s word index is beyond the current
/// length (reading never grows), else whether the id's bit is set.
pub fn bitset_test(words: &Vec<u32>, id: usize) -> (r: bool)
    ensures
        r == words_contain(words@, id as nat),
{
    let wi = id / 32;
    if wi < words.len() {
        let j = (id % 32) as u32;
        ((words[wi] >> j) & 1u32) == 1u32
    } else {
        false
    }
}

/// Enumerates the ids the bitset holds, scanning words in ascending order
/// and bits from least to most significant: the result is strictly
/// ascending and holds exactly the members.
pub fn bitset_ids(words: &Vec<u32>) -> (r: Vec<u32>)
    requires
        words@.len() <= MAX_WORDS,
    ensures
        strictly_ascending(r@),
        forall|id: u32| #[trigger] r@.contains(id) == words_contain(words@, id as nat),
{
    let mut r: Vec<u32> = Vec::new();
    let n = words.len();
    let mut i: usize = 0;
    while i < n
        invariant
            n == words@.len(),
            n <= MAX_WORDS,
            i <= n,
            strictly_ascending(r@),
            forall|a: int| 0 <= a < r@.len() ==> r@[a] < i * 32,
            forall|id: u32|
                #[trigger] r@.contains(id) == (words_contain(words@, id as nat) && (id as nat) < i
                    * 32),
        decreases n - i,
    {
        let w = words[i];
        let mut j: u32 = 0;
        while j < 32
            invariant
                n == words@.len(),
                n <= MAX_WORDS,
                i < n,
                j <= 32,
                w == words@[i as int],
                strictly_ascending(r@),
                forall|a: int| 0 <= a < r@.len() ==> r@[a] < i * 32 + j,
                forall|id: u32|
                    #[trigger] r@.contains(id) == (words_contain(words@, id as nat) && (id as nat)
                        < i * 32 + j),
            decreases 32 - j,
        {
            proof {
                let b: nat = i as nat * 32 + j as nat;
                assert(b / 32 == i as nat && b % 32 == j as nat) by (nonlinear_arith)
                    requires
                        b == i as nat * 32 + j as nat,
                        j < 32,
                ;
            }
            if ((w >> j) & 1u32) == 1u32 {
                let id: u32 = (i as u32) * 32 + j;
                let ghost before = r@;
                r.push(id);
                proof {
                    assert(words_contain(words@, id as nat));
                    assert(r@[before.len() as int] == id);
                    assert forall|x: u32| #[trigger] r@.contains(x) implies words_contain(
                        words@,
                        x as nat,
                    ) && (x as nat) < i * 32 + (j + 1) by {
                        let a = choose|a: int| 0 <= a < r@.len() && r@[a] == x;
                        if a < before.len() {
                            assert(before[a] == x);
                            assert(before.contains(x));
                        } else {
                            assert(x == id);
                        }
                    }
                    assert forall|x: u32|
                        words_contain(words@, x as nat) && (x as nat) < i * 32 + (j
                            + 1) implies #[trigger] r@.contains(x) by {
                        if (x as nat) < i * 32 + j {
                            assert(before.contains(x));
                            let a = choose|a: int| 0 <= a < before.len() && before[a] == x;
                            assert(r@[a] == x);
                        } else {
                            assert(x == id);
                            assert(r@[before.len() as int] == x);
                        }
                    }
                }
            } else {
                proof {
                    let b: nat = i as nat * 32 + j as nat;
                    assert(!words_contain(words@, b));
                    assert forall|x: u32|
                        words_contain(words@, x as nat) && (x as nat) < i * 32 + (j
                            + 1) implies #[trigger] r@.contains(x) by {
                        assert((x as nat) != b);
                        assert((x as nat) < i * 32 + j);
                    }
                }
            }
            j = j + 1;
        }
        i = i + 1;
    }
    proof {
        assert forall|id: u32| words_contain(words@, id as nat) implies (id as nat) < n * 32 by {
            assert((id as nat) / 32 < n);
            assert((id as nat) < n * 32) by (nonlinear_arith)
                requires
                    (id as nat) / 32 < n,
            ;
        }
    }
    r
}

/// Renders each word as 32 characters, most significant bit first.
pub fn bitset_binary(words: &Vec<u32>) -> (r: Vec<String>)
    ensures
        r@.len() == words@.len(),
        forall|i: int| 0 <= i < r@.len() ==> #[trigger] r@[i]@ == word_binary(words@[i]),
{
    let mut r: Vec<String> = Vec::new();
    let n = words.len();
    let mut i: usize = 0;
    while i < n
        invariant
            n == words@.len(),
            i <= n,
            r@.len() == i,
            forall|a: int| 0 <= a < i ==> #[trigger] r@[a]@ == word_binary(words@[a]),
        decreases n - i,
    {
        let s = word_to_binary(words[i]);
        r.push(s);
        i = i + 1;
    }
    r
}

/// Builds the 32-character rendering of one word, bit 31 first.
fn word_to_binary(w: u32) -> (s: String)
    ensures
        s@ == word_binary(w),
{
    let mut s = String::new();
    let mut k: u32 = 0;
    proof {
        reveal_strlit("0");
        reveal_strlit("1");
    }
    while k < 32
        invariant
            k <= 32,
            s@.len() == k,
            forall|a: int| 0 <= a < k ==> s@[a] == word_binary(w)[a],
        decreases 32 - k,
    {
        let j: u32 = 31 - k;
        if ((w >> j) & 1u32) == 1u32 {
            s.append("1");
        } else {
            s.append("0");
        }
        proof {
            reveal_strlit("0");
            reveal_strlit("1");
            assert(s@[k as int] == word_binary(w)[k as int]);
        }
        k = k + 1;
    }
    proof {
        assert(s@ =~= word_binary(w));
    }
    s
}

} // verus!
