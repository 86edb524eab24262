//! The mathematical model of a packed bitset: which ids a word sequence
//! holds, what inserting an id does to it, and how a single word renders
//! as binary text.

use vstd::prelude::*;

verus! {

/// Largest number of words a bitset may hold: enough for every id that
/// fits in a 32-bit word index, and no more, so that `word * 32 + bit`
/// always fits back in a `u32`.
pub const MAX_WORDS: usize = 0x0800_0000;

/// True when bit `j` (counted from the least-significant end) of `w` is set.
pub open spec fn bit_set(w: u32, j: u32) -> bool
    recommends
        j < 32,
{
    (w >> j) & 1u32 == 1u32
}

/// True when the packed word sequence holds `id`: the word at index
/// `id / 32` exists and its bit `id % 32` is set. Reading never grows the
/// sequence, so an id beyond the last word is simply absent.
pub open spec fn words_contain(words: Seq<u32>, id: nat) -> bool {
    id / 32 < words.len() && bit_set(words[(id / 32) as int], (id % 32) as u32)
}

/// Big-endian textual rendering of one word: 32 characters, bit 31
/// leftmost, bit 0 rightmost.
pub open spec fn word_binary(w: u32) -> Seq<char> {
    Seq::new(32, |i: int| if bit_set(w, (31 - i) as u32) { '1' } else { '0' })
}

/// `words` extended with zero words up to length `n`; unchanged when it is
/// already that long.
pub open spec fn grown(words: Seq<u32>, n: nat) -> Seq<u32> {
    if n <= words.len() {
        words
    } else {
        words + Seq::new((n - words.len()) as nat, |i: int| 0u32)
    }
}

/// The word sequence after inserting `id`: grown to cover `id`'s word,
/// with bit `id % 32` of that word set by OR.
pub open spec fn words_insert(words: Seq<u32>, id: u32) -> Seq<u32> {
    let g = grown(words, (id / 32 + 1) as nat);
    g.update(id as int / 32, g[id as int / 32] | (1u32 << (id % 32)))
}

/// The word sequence after inserting every id of `ids` in order, first to
/// last.
pub open spec fn words_insert_all(words: Seq<u32>, ids: Seq<u32>) -> Seq<u32>
    decreases ids.len(),
{
    if ids.len() == 0 {
        words
    } else {
        words_insert(words_insert_all(words, ids.drop_last()), ids.last())
    }
}

/// Setting bit `j` by OR leaves exactly the bits of `w` plus bit `j`.
pub proof fn lemma_bit_or_mask(w: u32, j: u32, n: u32)
    by (bit_vector)
    requires
        j < 32,
        n < 32,
    ensures
        bit_set(w | (1u32 << j), n) == (bit_set(w, n) || n == j),
{
}

/// Setting a bit that is already set changes nothing.
pub proof fn lemma_bit_or_idempotent(w: u32, j: u32)
    by (bit_vector)
    requires
        j < 32,
    ensures
        (w | (1u32 << j)) | (1u32 << j) == w | (1u32 << j),
{
}

/// A zero word has no bit set.
pub proof fn lemma_zero_bit_clear(n: u32)
    by (bit_vector)
    requires
        n < 32,
    ensures
        !bit_set(0u32, n),
{
}

/// Two bits set by OR land in the word in either order.
pub proof fn lemma_bit_or_swap(w: u32, x: u32, y: u32)
    by (bit_vector)
    ensures
        (w | x) | y == (w | y) | x,
{
}

/// A bit of `a & b` is set exactly when both operands have it set.
pub proof fn lemma_bit_and(a: u32, b: u32, n: u32)
    by (bit_vector)
    requires
        n < 32,
    ensures
        bit_set(a & b, n) == (bit_set(a, n) && bit_set(b, n)),
{
}

/// A bit of `a | b` is set exactly when either operand has it set.
pub proof fn lemma_bit_or(a: u32, b: u32, n: u32)
    by (bit_vector)
    requires
        n < 32,
    ensures
        bit_set(a | b, n) == (bit_set(a, n) || bit_set(b, n)),
{
}

/// Inserting `id` yields a sequence that holds exactly the old ids plus
/// `id`.
pub proof fn lemma_words_insert_contains(words: Seq<u32>, id: u32, n: u32)
    ensures
        words_contain(words_insert(words, id), n as nat) == (words_contain(words, n as nat) || n
            == id),
{
    let g = grown(words, (id / 32 + 1) as nat);
    let r = words_insert(words, id);
    let wi = id as int / 32;
    let j = (id % 32) as u32;
    let ni = n as int / 32;
    let nj = (n % 32) as u32;
    assert(id as int == 32 * wi + j);
    assert(n as int == 32 * ni + nj);
    assert(r.len() == g.len());
    assert(wi < g.len());
    if ni == wi {
        lemma_bit_or_mask(g[wi], j, nj);
        if wi < words.len() {
            assert(g[wi] == words[wi]);
        } else {
            assert(g[wi] == 0u32);
            lemma_zero_bit_clear(nj);
        }
    } else {
        if ni < r.len() {
            assert(r[ni] == g[ni]);
            if ni < words.len() {
                assert(g[ni] == words[ni]);
            } else {
                assert(g[ni] == 0u32);
                lemma_zero_bit_clear(nj);
            }
        } else {
            assert(ni >= words.len());
        }
    }
}

/// Inserting the same id twice changes nothing after the first time.
pub proof fn lemma_words_insert_idempotent(words: Seq<u32>, id: u32)
    ensures
        words_insert(words_insert(words, id), id) == words_insert(words, id),
{
    let g = grown(words, (id / 32 + 1) as nat);
    let w1 = words_insert(words, id);
    let wi = id as int / 32;
    let j = id % 32;
    assert(w1.len() == g.len());
    assert(wi < w1.len());
    assert(grown(w1, (id / 32 + 1) as nat) == w1);
    lemma_bit_or_idempotent(g[wi], j);
    assert(words_insert(w1, id) =~= w1);
}

/// Batch insertion yields exactly the old ids plus the ids of the batch.
pub proof fn lemma_words_insert_all_contains(words: Seq<u32>, ids: Seq<u32>, n: u32)
    ensures
        words_contain(words_insert_all(words, ids), n as nat) == (words_contain(words, n as nat)
            || ids.contains(n)),
    decreases ids.len(),
{
    if ids.len() == 0 {
        assert(!ids.contains(n));
    } else {
        let front = ids.drop_last();
        lemma_words_insert_all_contains(words, front, n);
        lemma_words_insert_contains(words_insert_all(words, front), ids.last(), n);
        assert(ids.contains(n) == (front.contains(n) || ids.last() == n)) by {
            if front.contains(n) {
                let a = choose|a: int| 0 <= a < front.len() && front[a] == n;
                assert(ids[a] == n);
            }
            if ids.last() == n {
                assert(ids[ids.len() - 1] == n);
            }
            if ids.contains(n) {
                let a = choose|a: int| 0 <= a < ids.len() && ids[a] == n;
                if a < ids.len() - 1 {
                    assert(front[a] == n);
                }
            }
        }
    }
}

/// What each word holds after an insertion: zero-filled past the old
/// length, and `id`'s word gains `id`'s bit.
pub proof fn lemma_words_insert_word(words: Seq<u32>, id: u32, p: int)
    requires
        0 <= p < words_insert(words, id).len(),
    ensures
        words_insert(words, id)[p] == {
            let base = if p < words.len() {
                words[p]
            } else {
                0u32
            };
            if p == id as int / 32 {
                base | (1u32 << (id % 32))
            } else {
                base
            }
        },
{
}

/// Insertions commute: two ids land in the same bitset whichever goes
/// first.
pub proof fn lemma_words_insert_commutes(words: Seq<u32>, a: u32, b: u32)
    ensures
        words_insert(words_insert(words, a), b) == words_insert(words_insert(words, b), a),
{
    let lhs = words_insert(words_insert(words, a), b);
    let rhs = words_insert(words_insert(words, b), a);
    lemma_words_insert_len(words, a);
    lemma_words_insert_len(words, b);
    lemma_words_insert_len(words_insert(words, a), b);
    lemma_words_insert_len(words_insert(words, b), a);
    assert(lhs.len() == rhs.len());
    assert forall|p: int| 0 <= p < lhs.len() implies lhs[p] == rhs[p] by {
        lemma_words_insert_word(words_insert(words, a), b, p);
        lemma_words_insert_word(words_insert(words, b), a, p);
        if p < words_insert(words, a).len() {
            lemma_words_insert_word(words, a, p);
        }
        if p < words_insert(words, b).len() {
            lemma_words_insert_word(words, b, p);
        }
        let base = if p < words.len() {
            words[p]
        } else {
            0u32
        };
        lemma_bit_or_swap(base, 1u32 << (a % 32), 1u32 << (b % 32));
    }
    assert(lhs =~= rhs);
}

/// The length after an insertion: grown just enough to cover `id`, never
/// shrunk.
pub proof fn lemma_words_insert_len(words: Seq<u32>, id: u32)
    ensures
        words_insert(words, id).len() == if words.len() >= id as nat / 32 + 1 {
            words.len()
        } else {
            id as nat / 32 + 1
        },
{
}

} // verus!
