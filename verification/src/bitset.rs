//! A dense, fixed-size bitset backed by a vector of 64-bit words.
//!
//! The bitset is the key under which the search memoizes the set of
//! operations that have already been linearized.
use vstd::prelude::*;

verus! {

/// FNV-1a offset basis.
pub const FNV_OFFSET: u64 = 0xcbf2_9ce4_8422_2325u64;

/// FNV-1a prime.
pub const FNV_PRIME: u64 = 0x0000_0100_0000_01b3u64;

/// Whether bit `k` of the word `w` is set.
pub open spec fn word_bit(w: u64, k: u64) -> bool {
    (w >> k) & 1u64 == 1u64
}

/// Number of 64-bit words needed to hold `n` bits.
pub open spec fn words_for(n: nat) -> nat {
    if n % 64 == 0 {
        n / 64
    } else {
        n / 64 + 1
    }
}

/// The words for `n` bits hold at least `n` bits.
pub proof fn lemma_words_for_capacity(n: nat)
    ensures
        64 * words_for(n) >= n,
{
}

/// FNV-1a over the first `k` words of `words`.
pub open spec fn fnv1a(words: Seq<u64>, k: nat) -> u64
    decreases k,
{
    if k == 0 || k > words.len() {
        FNV_OFFSET
    } else {
        (fnv1a(words, (k - 1) as nat) ^ words[k - 1]).wrapping_mul(FNV_PRIME)
    }
}

/// Setting bit `k` of a word adds exactly `k` to its set bits.
pub proof fn lemma_word_set_bit(w: u64, k: u64, j: u64)
    requires
        k < 64,
        j < 64,
    ensures
        word_bit(w | (1u64 << k), j) == (j == k || word_bit(w, j)),
{
    assert(((w | (1u64 << k)) >> j) & 1u64 == 1u64 <==> (j == k || (w >> j) & 1u64 == 1u64))
        by (bit_vector)
        requires
            k < 64,
            j < 64,
    ;
}

/// Clearing bit `k` of a word removes exactly `k` from its set bits.
pub proof fn lemma_word_clear_bit(w: u64, k: u64, j: u64)
    requires
        k < 64,
        j < 64,
    ensures
        word_bit(w & !(1u64 << k), j) == (j != k && word_bit(w, j)),
{
    assert(((w & !(1u64 << k)) >> j) & 1u64 == 1u64 <==> (j != k && (w >> j) & 1u64 == 1u64))
        by (bit_vector)
        requires
            k < 64,
            j < 64,
    ;
}

/// Testing bit `k` with a mask agrees with `word_bit`.
pub proof fn lemma_word_mask_test(w: u64, k: u64)
    requires
        k < 64,
    ensures
        (w & (1u64 << k) != 0u64) == word_bit(w, k),
{
    assert((w & (1u64 << k) != 0u64) == ((w >> k) & 1u64 == 1u64)) by (bit_vector)
        requires
            k < 64,
    ;
}

/// The zero word has no set bits.
pub proof fn lemma_word_zero(j: u64)
    requires
        j < 64,
    ensures
        !word_bit(0u64, j),
{
    assert(((0u64 >> j) & 1u64) != 1u64) by (bit_vector);
}

/// A word with no set bit among its lowest `k` bits, and nothing above them, is zero.
proof fn lemma_word_nonzero_has_bit_rec(w: u64, k: u64)
    requires
        k <= 64,
        w >> k == 0u64,
        forall|j: u64| j < k ==> !word_bit(w, j),
    ensures
        w == 0u64,
    decreases k,
{
    if k > 0 {
        let k1 = (k - 1) as u64;
        assert(!word_bit(w, k1));
        assert(w >> k1 == 0u64) by (bit_vector)
            requires
                w >> k == 0u64,
                (w >> k1) & 1u64 != 1u64,
                k1 + 1 == k,
                k <= 64,
        ;
        lemma_word_nonzero_has_bit_rec(w, k1);
    } else {
        assert(w >> 0u64 == w) by (bit_vector);
    }
}

/// A nonzero word has some set bit.
pub proof fn lemma_word_nonzero_has_bit(w: u64)
    requires
        w != 0u64,
    ensures
        exists|j: u64| j < 64 && word_bit(w, j),
{
    if forall|j: u64| j < 64 ==> !word_bit(w, j) {
        assert(w >> 64u64 == 0u64) by (bit_vector);
        lemma_word_nonzero_has_bit_rec(w, 64);
    }
}

/// `words` with bit `i` set.
pub open spec fn words_with(words: Seq<u64>, i: int) -> Seq<u64> {
    words.update(i / 64, words[i / 64] | (1u64 << (i % 64) as u64))
}

/// `words` with bit `i` cleared.
pub open spec fn words_without(words: Seq<u64>, i: int) -> Seq<u64> {
    words.update(i / 64, words[i / 64] & !(1u64 << (i % 64) as u64))
}

/// A dense, fixed-size bitset backed by a `Vec<u64>`.
#[derive(Debug)]
pub struct Bitset {
    words: Vec<u64>,
    /// Number of valid bits
    n: usize,
}

impl Bitset {
    /// The number of bits the bitset was created with.
    pub closed spec fn len(&self) -> nat {
        self.n as nat
    }

    /// The words that back the bitset.
    pub closed spec fn words(&self) -> Seq<u64> {
        self.words@
    }

    /// The bits that can be addressed: 64 per word.
    pub open spec fn capacity(&self) -> nat {
        64 * self.words().len()
    }

    /// Whether bit `i` is set, read from the backing words.
    pub open spec fn bit(&self, i: int) -> bool {
        word_bit(self.words()[i / 64], (i % 64) as u64)
    }

    /// The backing vector has exactly the words that `len` bits need.
    pub open spec fn wf(&self) -> bool {
        self.words().len() == words_for(self.len())
    }

    /// Create a bitset of `n` bits, all cleared.
    pub fn new(n: usize) -> (r: Self)
        ensures
            r.wf(),
            r.len() == n,
            r@ == Set::<int>::empty(),
            forall|k: int| 0 <= k < r.words().len() ==> r.words()[k] == 0u64,
    {
        let num_words: usize = if n % 64 == 0 {
            n / 64
        } else {
            n / 64 + 1
        };
        let words = vec![0u64; num_words];
        let r = Self { words, n };
        assert forall|i: int| #![auto] r@.contains(i) implies false by {
            lemma_word_zero((i % 64) as u64);
        }
        assert(r@ =~= Set::<int>::empty());
        r
    }

    /// Set bit `i`.
    pub fn set(&mut self, i: usize)
        requires
            i < old(self).capacity(),
        ensures
            final(self).len() == old(self).len(),
            final(self).words().len() == old(self).words().len(),
            final(self)@ == old(self)@.insert(i as int),
            final(self).words() == words_with(old(self).words(), i as int),
    {
        let idx = i / 64;
        let w = self.words[idx] | (1u64 << (i % 64) as u64);
        self.words.set(idx, w);
        proof {
            assert forall|j: int| #![auto] 0 <= j < self.capacity() implies self.bit(j) == (j
                == i || old(self).bit(j)) by {
                if j / 64 == idx as int {
                    lemma_word_set_bit(old(self).words()[idx as int], (i % 64) as u64, (j % 64) as u64);
                }
            }
            assert(self@ =~= old(self)@.insert(i as int));
        }
    }

    /// Clear bit `i`.
    pub fn clear(&mut self, i: usize)
        requires
            i < old(self).capacity(),
        ensures
            final(self).len() == old(self).len(),
            final(self).words().len() == old(self).words().len(),
            final(self)@ == old(self)@.remove(i as int),
            final(self).words() == words_without(old(self).words(), i as int),
    {
        let idx = i / 64;
        let w = self.words[idx] & !(1u64 << (i % 64) as u64);
        self.words.set(idx, w);
        proof {
            assert forall|j: int| #![auto] 0 <= j < self.capacity() implies self.bit(j) == (j
                != i && old(self).bit(j)) by {
                if j / 64 == idx as int {
                    lemma_word_clear_bit(old(self).words()[idx as int], (i % 64) as u64, (j % 64) as u64);
                }
            }
            assert(self@ =~= old(self)@.remove(i as int));
        }
    }

    /// Returns `true` if bit `i` is set.
    pub fn is_set(&self, i: usize) -> (r: bool)
        requires
            i < self.capacity(),
        ensures
            r == self@.contains(i as int),
    {
        let w = self.words[i / 64];
        proof {
            lemma_word_mask_test(w, (i % 64) as u64);
        }
        w & (1u64 << (i % 64) as u64) != 0
    }

    /// Returns `true` when every bit is clear.
    pub fn is_empty(&self) -> (r: bool)
        ensures
            r == (self@ == Set::<int>::empty()),
    {
        let mut k: usize = 0;
        while k < self.words.len()
            invariant
                k <= self.words().len(),
                forall|j: int| 0 <= j < k ==> self.words()[j] == 0u64,
            decreases self.words().len() - k,
        {
            if self.words[k] != 0 {
                proof {
                    let w = self.words()[k as int];
                    lemma_word_nonzero_has_bit(w);
                    let b = choose|b: u64| b < 64 && word_bit(w, b);
                    let i = 64 * (k as int) + b as int;
                    assert(i / 64 == k as int && i % 64 == b as int);
                    assert(self@.contains(i));
                }
                return false;
            }
            k = k + 1;
        }
        proof {
            assert forall|i: int| #![auto] self@.contains(i) implies false by {
                lemma_word_zero((i % 64) as u64);
            }
            assert(self@ =~= Set::<int>::empty());
        }
        true
    }

    /// FNV-1a hash over all words.
    pub fn hash_val(&self) -> (h: u64)
        ensures
            h == fnv1a(self.words(), self.words().len()),
    {
        let mut h: u64 = FNV_OFFSET;
        let mut k: usize = 0;
        while k < self.words.len()
            invariant
                k <= self.words().len(),
                h == fnv1a(self.words(), k as nat),
            decreases self.words().len() - k,
        {
            h = h ^ self.words[k];
            h = h.wrapping_mul(FNV_PRIME);
            k = k + 1;
        }
        h
    }

    /// Whether two bitsets have the same length and the same words.
    pub fn same_as(&self, other: &Bitset) -> (r: bool)
        ensures
            r == (self.len() == other.len() && self.words() == other.words()),
    {
        if self.n != other.n || self.words.len() != other.words.len() {
            return false;
        }
        let mut k: usize = 0;
        while k < self.words.len()
            invariant
                k <= self.words().len(),
                self.words().len() == other.words().len(),
                forall|j: int| 0 <= j < k ==> self.words()[j] == other.words()[j],
            decreases self.words().len() - k,
        {
            if self.words[k] != other.words[k] {
                return false;
            }
            k = k + 1;
        }
        assert(self.words() =~= other.words());
        true
    }

    /// An independent copy of the bitset.
    pub fn copy(&self) -> (r: Bitset)
        ensures
            r.len() == self.len(),
            r.words() == self.words(),
            r@ == self@,
    {
        let mut words: Vec<u64> = Vec::new();
        let mut k: usize = 0;
        while k < self.words.len()
            invariant
                k <= self.words().len(),
                words@ == self.words().take(k as int),
            decreases self.words().len() - k,
        {
            words.push(self.words[k]);
            k = k + 1;
            assert(words@ =~= self.words().take(k as int));
        }
        assert(words@ =~= self.words());
        let r = Bitset { words, n: self.n };
        assert(r@ =~= self@);
        r
    }
}

impl View for Bitset {
    type V = Set<int>;

    /// The indices of the set bits.
    open spec fn view(&self) -> Set<int> {
        Set::new(|i: int| 0 <= i < self.capacity() && self.bit(i))
    }
}

impl Clone for Bitset {
    fn clone(&self) -> (r: Self)
        ensures
            r.len() == self.len(),
            r.words() == self.words(),
            r@ == self@,
    {
        self.copy()
    }
}

impl PartialEq for Bitset {
    fn eq(&self, other: &Self) -> (r: bool) {
        self.same_as(other)
    }
}

impl Eq for Bitset {}

impl vstd::std_specs::cmp::PartialEqSpecImpl for Bitset {
    open spec fn obeys_eq_spec() -> bool {
        true
    }

    open spec fn eq_spec(&self, other: &Bitset) -> bool {
        self.len() == other.len() && self.words() == other.words()
    }
}

/// Two words with the same bits are the same word.
pub proof fn lemma_word_bits_equal(a: u64, b: u64)
    requires
        forall|j: u64| j < 64 ==> word_bit(a, j) == word_bit(b, j),
    ensures
        a == b,
{
    if a != b {
        assert(a ^ b != 0u64) by (bit_vector)
            requires
                a != b,
        ;
        lemma_word_nonzero_has_bit(a ^ b);
        let j = choose|j: u64| j < 64 && word_bit(a ^ b, j);
        assert(word_bit(a, j) == word_bit(b, j));
        assert(((a ^ b) >> j) & 1u64 == 1u64 ==> (((a >> j) & 1u64 == 1u64) != ((b >> j) & 1u64
            == 1u64))) by (bit_vector)
            requires
                j < 64u64,
        ;
    }
}

/// Two well-formed bitsets with the same length and the same bits have the
/// same words: the set of bits is all there is to a bitset of a given
/// length.
pub proof fn lemma_same_bits_same_words(a: Bitset, b: Bitset)
    requires
        a.wf(),
        b.wf(),
        a.len() == b.len(),
        a@ == b@,
    ensures
        a.words() == b.words(),
{
    assert forall|w: int| 0 <= w < a.words().len() implies a.words()[w] == b.words()[w] by {
        assert forall|j: u64| j < 64 implies word_bit(a.words()[w], j) == word_bit(b.words()[w], j) by {
            let i = 64 * w + j as int;
            assert(i / 64 == w && i % 64 == j as int);
            assert(a@.contains(i) == a.bit(i));
            assert(b@.contains(i) == b.bit(i));
        }
        lemma_word_bits_equal(a.words()[w], b.words()[w]);
    }
    assert(a.words() =~= b.words());
}

/// Two bitsets with the same length and words hash to the same value.
pub proof fn lemma_equal_bitsets_same_hash(a: Bitset, b: Bitset)
    requires
        a.len() == b.len(),
        a.words() == b.words(),
    ensures
        fnv1a(a.words(), a.words().len()) == fnv1a(b.words(), b.words().len()),
{
}

/// Setting a clear bit and then clearing it gives back the very same words
/// (so the same hash and the same bits): a search that backtracks finds
/// its memo key as it was.
pub proof fn lemma_set_then_clear_restores(b: Bitset, i: int)
    requires
        0 <= i < b.capacity(),
        !b@.contains(i),
    ensures
        words_without(words_with(b.words(), i), i) == b.words(),
{
    let w = b.words()[i / 64];
    let k = (i % 64) as u64;
    assert(!word_bit(w, k));
    assert((w | (1u64 << k)) & !(1u64 << k) == w) by (bit_vector)
        requires
            k < 64,
            (w >> k) & 1u64 != 1u64,
    ;
    assert(words_without(words_with(b.words(), i), i) =~= b.words());
}

} // verus!
