//! A small, fast, non-cryptographic hasher.
//!
//! The search hashes a state on every probe of its table, and a state is a whole plane of boxes.

use std::hash::Hasher;

use vstd::prelude::*;

verus! {

/// Multiplier of the hash.
pub const SEED: u64 = 0x517cc1b727220a95;

/// The hash after one more word.
pub open spec fn fx_add(hash: u64, word: u64) -> u64 {
    ((((hash << 5) | (hash >> 59)) ^ word) * SEED % 0x1_0000_0000_0000_0000) as u64
}

/// A byte, 0 past the end.
pub open spec fn byte_at(bytes: Seq<u8>, i: int) -> int {
    if 0 <= i < bytes.len() {
        bytes[i] as int
    } else {
        0
    }
}

/// The eight bytes from `i` on as a little-endian number, with zeros past the end.
pub open spec fn word_at(bytes: Seq<u8>, i: int) -> u64 {
    (byte_at(bytes, i) + 0x100 * byte_at(bytes, i + 1) + 0x1_0000 * byte_at(bytes, i + 2)
        + 0x100_0000 * byte_at(bytes, i + 3) + 0x1_0000_0000 * byte_at(bytes, i + 4)
        + 0x100_0000_0000 * byte_at(bytes, i + 5) + 0x1_0000_0000_0000 * byte_at(bytes, i + 6)
        + 0x100_0000_0000_0000 * byte_at(bytes, i + 7)) as u64
}

/// The hash after the first `n` words of some bytes.
pub open spec fn fx_words(hash: u64, bytes: Seq<u8>, n: int) -> u64
    decreases n,
{
    if n <= 0 {
        hash
    } else {
        fx_add(fx_words(hash, bytes, n - 1), word_at(bytes, 8 * (n - 1)))
    }
}

/// The hash after some bytes.
pub open spec fn fx_bytes(hash: u64, bytes: Seq<u8>) -> u64 {
    fx_words(hash, bytes, (bytes.len() as int + 7) / 8)
}

#[derive(Clone, Copy)]
pub struct FxHasher {
    pub hash: u64,
}

impl Default for FxHasher {
    fn default() -> (r: Self)
        ensures
            r.hash == 0,
    {
        FxHasher { hash: 0 }
    }
}

fn byte_of(bytes: &[u8], i: usize) -> (r: u64)
    ensures
        r == byte_at(bytes@, i as int),
        r <= 255,
{
    if i < bytes.len() {
        bytes[i] as u64
    } else {
        0
    }
}

fn word_of(bytes: &[u8], i: usize) -> (r: u64)
    requires
        i < bytes@.len(),
        i + 7 <= usize::MAX,
    ensures
        r == word_at(bytes@, i as int),
{
    byte_of(bytes, i) + 0x100 * byte_of(bytes, i + 1) + 0x1_0000 * byte_of(bytes, i + 2)
        + 0x100_0000 * byte_of(bytes, i + 3) + 0x1_0000_0000 * byte_of(bytes, i + 4)
        + 0x100_0000_0000 * byte_of(bytes, i + 5) + 0x1_0000_0000_0000 * byte_of(bytes, i + 6)
        + 0x100_0000_0000_0000 * byte_of(bytes, i + 7)
}

impl FxHasher {
    fn add(&mut self, word: u64)
        ensures
            final(self).hash == fx_add(old(self).hash, word),
    {
        self.hash = (((self.hash << 5) | (self.hash >> 59)) ^ word).wrapping_mul(SEED);
    }
}

impl Hasher for FxHasher {
    /// Hash the bytes eight at a time, the last word filled up with zeros.
    fn write(&mut self, bytes: &[u8])
        ensures
            final(self).hash == fx_bytes(old(self).hash, bytes@),
    {
        let n = bytes.len();
        let ghost start = self.hash;
        let mut i: usize = 0;
        let ghost mut k: int = 0;
        while n - i >= 8
            invariant
                n == bytes@.len(),
                i <= n,
                i == 8 * k,
                0 <= k,
                self.hash == fx_words(start, bytes@, k),
            decreases n - i,
        {
            self.add(word_of(bytes, i));
            i += 8;
            proof {
                k = k + 1;
            }
        }
        if i < n {
            let mut rest: Vec<u8> = Vec::new();
            let mut j: usize = i;
            while j < n
                invariant
                    i <= j <= n,
                    n == bytes@.len(),
                    rest@ == bytes@.subrange(i as int, j as int),
                decreases n - j,
            {
                rest.push(bytes[j]);
                j += 1;
                assert(rest@ =~= bytes@.subrange(i as int, j as int));
            }
            proof {
                assert(word_at(rest@, 0) == word_at(bytes@, i as int));
            }
            self.add(word_of(rest.as_slice(), 0));
        }
    }

    fn write_u8(&mut self, i: u8)
        ensures
            final(self).hash == fx_add(old(self).hash, i as u64),
    {
        self.add(i as u64);
    }

    fn write_u16(&mut self, i: u16)
        ensures
            final(self).hash == fx_add(old(self).hash, i as u64),
    {
        self.add(i as u64);
    }

    fn write_u32(&mut self, i: u32)
        ensures
            final(self).hash == fx_add(old(self).hash, i as u64),
    {
        self.add(i as u64);
    }

    fn write_u64(&mut self, i: u64)
        ensures
            final(self).hash == fx_add(old(self).hash, i),
    {
        self.add(i);
    }

    fn write_usize(&mut self, i: usize)
        ensures
            final(self).hash == fx_add(old(self).hash, i as u64),
    {
        self.add(i as u64);
    }

    fn finish(&self) -> (r: u64)
        ensures
            r == self.hash,
    {
        self.hash
    }
}

pub type FxBuildHasher = std::hash::BuildHasherDefault<FxHasher>;

pub type FxHashMap<K, V> = std::collections::HashMap<K, V, FxBuildHasher>;

pub type FxHashSet<K> = std::collections::HashSet<K, FxBuildHasher>;

/// Bytes are hashed eight at a time, the first in the lowest place, and what is missing of the last
/// eight counts as zeros: whole words first and the rest then give the hash of both, each word turns
/// the hash by five bits, is combined with it and multiplied in, and zeros at the end of a word
/// change nothing.
pub proof fn law_bytes_are_hashed_word_by_word(hash: u64, a: Seq<u8>, b: Seq<u8>, word: u64)
    requires
        a.len() % 8 == 0,
    ensures
        fx_bytes(hash, a + b) == fx_bytes(fx_bytes(hash, a), b),
        fx_bytes(hash, Seq::empty()) == hash,
        b.len() % 8 != 0 ==> fx_bytes(hash, b.push(0)) == fx_bytes(hash, b),
        b.len() == 8 ==> fx_bytes(hash, b) == fx_add(
            hash,
            (b[0] + 0x100 * b[1] + 0x1_0000 * b[2] + 0x100_0000 * b[3] + 0x1_0000_0000 * b[4]
                + 0x100_0000_0000 * b[5] + 0x1_0000_0000_0000 * b[6] + 0x100_0000_0000_0000
                * b[7]) as u64,
        ),
        fx_add(hash, word) == (((hash << 5) | (hash >> 59)) ^ word) * 0x517cc1b727220a95
            % 0x1_0000_0000_0000_0000,
{
    lemma_words_concat(hash, a, b, (b.len() as int + 7) / 8);
    if b.len() % 8 != 0 {
        lemma_words_padded(hash, b, (b.len() as int + 7) / 8);
    }
    if b.len() == 8 {
        assert(fx_words(hash, b, 0) == hash);
        assert(fx_words(hash, b, 1) == fx_add(hash, word_at(b, 0)));
    }
}

#[verifier::rlimit(30)]
proof fn lemma_words_concat(hash: u64, a: Seq<u8>, b: Seq<u8>, n: int)
    requires
        a.len() % 8 == 0,
        0 <= n,
    ensures
        fx_words(hash, a + b, a.len() as int / 8 + n) == fx_words(fx_bytes(hash, a), b, n),
    decreases n,
{
    let m = a.len() as int / 8;
    if n > 0 {
        lemma_words_concat(hash, a, b, n - 1);
        let i = 8 * (n - 1);
        assert forall|k: int| 0 <= k implies #[trigger] byte_at(a + b, a.len() + k) == byte_at(
            b,
            k,
        ) by {}
        assert(8 * (m + n - 1) == a.len() + i);
        assert(byte_at(a + b, a.len() + (i + 1)) == byte_at(b, i + 1));
        assert(byte_at(a + b, a.len() + (i + 2)) == byte_at(b, i + 2));
        assert(byte_at(a + b, a.len() + (i + 3)) == byte_at(b, i + 3));
        assert(byte_at(a + b, a.len() + (i + 4)) == byte_at(b, i + 4));
        assert(byte_at(a + b, a.len() + (i + 5)) == byte_at(b, i + 5));
        assert(byte_at(a + b, a.len() + (i + 6)) == byte_at(b, i + 6));
        assert(byte_at(a + b, a.len() + (i + 7)) == byte_at(b, i + 7));
        assert(word_at(a + b, a.len() + i) == word_at(b, i));
    } else {
        lemma_words_prefix(hash, a, b, m);
    }
}

proof fn lemma_words_prefix(hash: u64, a: Seq<u8>, b: Seq<u8>, n: int)
    requires
        0 <= n,
        8 * n <= a.len(),
    ensures
        fx_words(hash, a + b, n) == fx_words(hash, a, n),
    decreases n,
{
    if n > 0 {
        lemma_words_prefix(hash, a, b, n - 1);
        assert(word_at(a + b, 8 * (n - 1)) == word_at(a, 8 * (n - 1)));
    }
}

proof fn lemma_words_padded(hash: u64, b: Seq<u8>, n: int)
    requires
        0 <= n,
    ensures
        fx_words(hash, b.push(0), n) == fx_words(hash, b, n),
    decreases n,
{
    if n > 0 {
        lemma_words_padded(hash, b, n - 1);
        assert(word_at(b.push(0), 8 * (n - 1)) == word_at(b, 8 * (n - 1)));
    }
}

} // verus!
