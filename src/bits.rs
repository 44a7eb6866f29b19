//! Bit vectors answering "is this document set / live?".

use std::sync::Arc;
use vstd::prelude::*;

verus! {

/// Interface of read-only bit vectors.
pub trait Bits {
    /// Number of bits.
    spec fn bits_len(&self) -> nat;

    /// The bit at `index`.
    spec fn bit(&self, index: int) -> bool;

    /// Whether `get` answers for `index`.
    spec fn readable(&self, index: int) -> bool;

    /// The kind of vector: 1 for one with every bit set, else 0.
    spec fn bits_id(&self) -> int;

    fn get(&self, index: usize) -> (r: bool)
        requires
            self.readable(index as int),
        ensures
            r == self.bit(index as int),
    ;

    fn id(&self) -> (r: i32)
        ensures
            r == self.bits_id(),
    ;

    fn len(&self) -> (r: usize)
        ensures
            r == self.bits_len(),
    ;
}

/// Bit vectors read through a mutable handle.
pub trait BitsMut: Sized {
    spec fn bits_mut_len(&self) -> nat;

    spec fn bit_mut(&self, index: int) -> bool;

    spec fn readable_mut(&self, index: int) -> bool;

    fn get(&mut self, index: usize) -> (r: bool)
        requires
            old(self).readable_mut(index as int),
        ensures
            r == old(self).bit_mut(index as int),
            *final(self) == *old(self),
    ;

    fn len(&self) -> (r: usize)
        ensures
            r == self.bits_mut_len(),
    ;
}

/// A bit vector of the given length whose bits are all set.
#[derive(Clone, Copy)]
pub struct MatchAllBits {
    len: usize,
}

impl MatchAllBits {
    pub fn new(len: usize) -> (r: Self)
        ensures
            r.bits_len() == len,
    {
        MatchAllBits { len }
    }
}

impl Bits for MatchAllBits {
    open spec fn readable(&self, index: int) -> bool {
        true
    }

    open spec fn bits_id(&self) -> int {
        1
    }

    fn id(&self) -> (r: i32) {
        1
    }

    closed spec fn bits_len(&self) -> nat {
        self.len as nat
    }

    open spec fn bit(&self, index: int) -> bool {
        true
    }

    fn get(&self, index: usize) -> (r: bool) {
        true
    }

    fn len(&self) -> (r: usize) {
        self.len
    }
}

/// A bit vector of the given length with no bit set.
#[derive(Clone, Copy)]
pub struct MatchNoBits {
    len: usize,
}

impl MatchNoBits {
    pub fn new(len: usize) -> (r: Self)
        ensures
            r.bits_len() == len,
    {
        MatchNoBits { len }
    }
}

impl Bits for MatchNoBits {
    open spec fn readable(&self, index: int) -> bool {
        true
    }

    open spec fn bits_id(&self) -> int {
        0
    }

    fn id(&self) -> (r: i32) {
        0
    }

    closed spec fn bits_len(&self) -> nat {
        self.len as nat
    }

    open spec fn bit(&self, index: int) -> bool {
        false
    }

    fn get(&self, index: usize) -> (r: bool) {
        false
    }

    fn len(&self) -> (r: usize) {
        self.len
    }
}

impl BitsMut for MatchAllBits {
    open spec fn bits_mut_len(&self) -> nat {
        Bits::bits_len(self)
    }

    open spec fn bit_mut(&self, index: int) -> bool {
        Bits::bit(self, index)
    }

    open spec fn readable_mut(&self, index: int) -> bool {
        Bits::readable(self, index)
    }

    fn get(&mut self, index: usize) -> (r: bool) {
        Bits::get(&*self, index)
    }

    fn len(&self) -> (r: usize) {
        Bits::len(self)
    }
}

impl BitsMut for MatchNoBits {
    open spec fn bits_mut_len(&self) -> nat {
        Bits::bits_len(self)
    }

    open spec fn bit_mut(&self, index: int) -> bool {
        Bits::bit(self, index)
    }

    open spec fn readable_mut(&self, index: int) -> bool {
        Bits::readable(self, index)
    }

    fn get(&mut self, index: usize) -> (r: bool) {
        Bits::get(&*self, index)
    }

    fn len(&self) -> (r: usize) {
        Bits::len(self)
    }
}

/// Bit `k` (0 = least significant) of a byte.
pub open spec fn byte_bit(b: u8, k: nat) -> bool {
    (b >> k) & 1 == 1
}

/// Bit `k` (0 = least significant) of a 64-bit word.
pub open spec fn word_bit(w: u64, k: nat) -> bool {
    (w >> k) & 1 == 1
}

/// Number of bytes that hold `count` bits.
pub open spec fn bytes_for_bits(count: nat) -> nat {
    (count + 7) / 8
}

/// Liveness bits read from a byte slice, least significant bit first.
pub struct LiveBits {
    bytes: Vec<u8>,
    count: usize,
}

impl LiveBits {
    pub closed spec fn bytes_view(&self) -> Seq<u8> {
        self.bytes@
    }

    #[verifier::type_invariant]
    spec fn wf(&self) -> bool {
        self.bytes@.len() == bytes_for_bits(self.count as nat)
    }

    /// Reads the `(count + 7) / 8` bytes at `offset` of `data`; `None` when
    /// they do not all lie inside `data`.
    pub fn new(data: &Vec<u8>, offset: usize, count: usize) -> (r: Option<LiveBits>)
        ensures
            r.is_none() <==> offset + bytes_for_bits(count as nat) > data@.len(),
            r matches Some(lb) ==> lb.bits_len() == count
                && lb.bytes_view() =~= data@.subrange(
                offset as int,
                offset + bytes_for_bits(count as nat),
            ),
    {
        let length: usize = count / 8 + if count % 8 == 0 { 0usize } else { 1usize };
        assert(length == bytes_for_bits(count as nat));
        if offset > data.len() || length > data.len() - offset {
            return None;
        }
        let mut bytes: Vec<u8> = Vec::new();
        let end: usize = offset + length;
        let mut j: usize = offset;
        while j < end
            invariant
                offset <= j <= end,
                end == offset + length,
                end <= data@.len(),
                bytes@ =~= data@.subrange(offset as int, j as int),
            decreases end - j,
        {
            bytes.push(data[j]);
            j = j + 1;
        }
        Some(LiveBits { bytes, count })
    }
}

impl Bits for LiveBits {
    open spec fn readable(&self, index: int) -> bool {
        0 <= index < self.bits_len()
    }

    open spec fn bits_id(&self) -> int {
        0
    }

    fn id(&self) -> (r: i32) {
        0
    }

    closed spec fn bits_len(&self) -> nat {
        self.count as nat
    }

    open spec fn bit(&self, index: int) -> bool {
        byte_bit(self.bytes_view()[index / 8], (index % 8) as nat)
    }

    fn get(&self, index: usize) -> (r: bool) {
        proof {
            use_type_invariant(self);
        }
        let b = self.bytes[index / 8];
        (b >> ((index % 8) as u8)) & 1 == 1
    }

    fn len(&self) -> (r: usize) {
        self.count
    }
}

impl BitsMut for LiveBits {
    open spec fn bits_mut_len(&self) -> nat {
        Bits::bits_len(self)
    }

    open spec fn bit_mut(&self, index: int) -> bool {
        Bits::bit(self, index)
    }

    open spec fn readable_mut(&self, index: int) -> bool {
        Bits::readable(self, index)
    }

    fn get(&mut self, index: usize) -> (r: bool) {
        Bits::get(&*self, index)
    }

    fn len(&self) -> (r: usize) {
        Bits::len(self)
    }
}

/// Number of set bits among the low `k` bits of a word.
pub open spec fn pop_low(w: u64, k: nat) -> nat
    decreases k,
{
    if k == 0 {
        0
    } else {
        pop_low(w, (k - 1) as nat) + if word_bit(w, (k - 1) as nat) { 1nat } else { 0nat }
    }
}

/// Number of set bits in the first `n` words.
pub open spec fn pop_words(words: Seq<i64>, n: nat) -> nat
    decreases n,
{
    if n == 0 || n > words.len() {
        0
    } else {
        pop_words(words, (n - 1) as nat) + pop_low(words[n - 1] as u64, 64)
    }
}

/// Number of 64-bit words that hold `num_bits` bits.
pub open spec fn words_for_bits(num_bits: nat) -> nat {
    if num_bits == 0 {
        0
    } else {
        ((num_bits - 1) / 64 + 1) as nat
    }
}

proof fn lemma_pop_low_bound(w: u64, k: nat)
    ensures
        pop_low(w, k) <= k,
    decreases k,
{
    if k > 0 {
        lemma_pop_low_bound(w, (k - 1) as nat);
    }
}

proof fn lemma_pop_words_bound(words: Seq<i64>, n: nat)
    ensures
        pop_words(words, n) <= 64 * n,
    decreases n,
{
    if n > 0 && n <= words.len() {
        lemma_pop_words_bound(words, (n - 1) as nat);
        lemma_pop_low_bound(words[n - 1] as u64, 64);
    }
}

/// A bit vector over shared 64-bit words, bit `i` being bit `i % 64` of
/// word `i / 64`.
pub struct FixedBits {
    num_bits: usize,
    num_words: usize,
    bits: Arc<Vec<i64>>,
}

impl FixedBits {
    #[verifier::type_invariant]
    spec fn wf(&self) -> bool {
        &&& self.num_words == words_for_bits(self.num_bits as nat)
        &&& self.num_words <= self.bits@.len()
        &&& self.num_bits + 63 <= usize::MAX
    }

    /// The words the bits are read from.
    pub closed spec fn words(&self) -> Seq<i64> {
        self.bits@
    }

    pub fn new(bits: Arc<Vec<i64>>, num_bits: usize) -> (r: FixedBits)
        requires
            words_for_bits(num_bits as nat) <= bits@.len(),
            num_bits + 63 <= usize::MAX,
        ensures
            r.bits_len() == num_bits,
            r.words() == bits@,
    {
        let num_words = FixedBits::bits_2_words(num_bits);
        FixedBits { num_bits, num_words, bits }
    }

    pub fn bits_2_words(num_bits: usize) -> (r: usize)
        ensures
            r == words_for_bits(num_bits as nat),
    {
        if num_bits == 0 {
            0
        } else {
            let m: usize = num_bits - 1;
            assert(m >> 6usize == m / 64) by (bit_vector);
            (m >> 6) + 1
        }
    }

    /// Number of set bits over the words that hold the vector.
    pub fn cardinality(&self) -> (r: usize)
        ensures
            r == pop_words(self.words(), words_for_bits(self.bits_len())),
    {
        proof {
            use_type_invariant(self);
        }
        let mut set_bits: usize = 0;
        let mut i: usize = 0;
        while i < self.num_words
            invariant
                i <= self.num_words,
                self.num_words <= self.bits@.len(),
                self.num_words * 64 <= usize::MAX,
                set_bits == pop_words(self.bits@, i as nat),
            decreases self.num_words - i,
        {
            let w = self.bits[i] as u64;
            let mut k: u32 = 0;
            let mut c: usize = 0;
            while k < 64
                invariant
                    k <= 64,
                    c == pop_low(w, k as nat),
                decreases 64 - k,
            {
                proof {
                    lemma_pop_low_bound(w, k as nat);
                }
                if (w >> k) & 1 == 1 {
                    c = c + 1;
                }
                k = k + 1;
            }
            proof {
                lemma_pop_words_bound(self.bits@, i as nat);
                lemma_pop_low_bound(w, 64);
            }
            set_bits = set_bits + c;
            i = i + 1;
        }
        set_bits
    }

    pub fn length(&self) -> (r: usize)
        ensures
            r == self.bits_len(),
    {
        self.num_bits
    }
}

impl Bits for FixedBits {
    open spec fn readable(&self, index: int) -> bool {
        0 <= index < self.bits_len()
    }

    open spec fn bits_id(&self) -> int {
        0
    }

    fn id(&self) -> (r: i32) {
        0
    }

    closed spec fn bits_len(&self) -> nat {
        self.num_bits as nat
    }

    open spec fn bit(&self, index: int) -> bool {
        word_bit(self.words()[index / 64] as u64, (index % 64) as nat)
    }

    fn get(&self, index: usize) -> (r: bool) {
        proof {
            use_type_invariant(self);
        }
        let w = self.bits[index / 64] as u64;
        (w >> ((index % 64) as u64)) & 1 == 1
    }

    fn len(&self) -> (r: usize) {
        self.num_bits
    }
}

} // verus!
