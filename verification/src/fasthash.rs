//! A fast, non-cryptographic hasher for the compiler's internal hash tables.
//!
//! The keys of the compiler's tables are instruction operands, block ids and interpreter
//! pointers that the compiler produced itself, so there is no attacker to defend against.
//!
//! This is the FxHash construction (multiply-xor-rotate) used by rustc for the same reason.
//! It is a good hash for small integers and pointers and it compiles down to a couple of
//! instructions per word.

use vstd::prelude::*;

use std::hash::{BuildHasherDefault, Hasher};

use crate::le;

verus! {

/// Drop-in replacement for [`std::collections::HashMap`] with [`FastHasher`].
pub type FastHashMap<K, V> = std::collections::HashMap<K, V, BuildHasherDefault<FastHasher>>;

/// Drop-in replacement for [`std::collections::HashSet`] with [`FastHasher`].
pub type FastHashSet<T> = std::collections::HashSet<T, BuildHasherDefault<FastHasher>>;

/// Odd 64-bit constant close to 2^64 / phi, so that multiplying by it spreads the input bits
/// across the whole word.
pub const SEED: u64 = 0x51_7c_c1_b7_27_22_0a_95;

/// `x` rotated left by five bits.
pub open spec fn rotated(x: u64) -> u64 {
    ((x % 0x0800_0000_0000_0000) * 32 + x / 0x0800_0000_0000_0000) as u64
}

/// The hash after one more word.
pub open spec fn mixed(hash: u64, word: u64) -> u64 {
    (rotated(hash) ^ word).wrapping_mul(SEED)
}

/// [`u64::from_ne_bytes`] makes a word of eight bytes: least significant byte first on a
/// little-endian machine, most significant byte first on a big-endian one. Which of the two it is
/// rests on the machine and is left unsaid.
#[verifier::external_body]
fn native_word(bytes: [u8; 8]) -> (word: u64)
    ensures
        word == le::le_value(bytes@) || word == le::le_value(bytes@.reverse()),
{
    u64::from_ne_bytes(bytes)
}

/// The word that up to eight bytes make up, as if zeros followed them.
pub open spec fn word_value(bytes: Seq<u8>, big_endian: bool) -> u64 {
    let padded = Seq::new(
        8,
        |i: int|
            if i < bytes.len() {
                bytes[i]
            } else {
                0
            },
    );
    le::le_value(
        if big_endian {
            padded.reverse()
        } else {
            padded
        },
    ) as u64
}

/// The hash after some more bytes: one round per eight bytes, and one for what is left over,
/// as if zeros followed it.
pub open spec fn mixed_bytes(hash: u64, bytes: Seq<u8>, big_endian: bool) -> u64
    decreases bytes.len(),
{
    if bytes.len() == 0 {
        hash
    } else if bytes.len() >= 8 {
        mixed_bytes(
            mixed(hash, word_value(bytes.take(8), big_endian)),
            bytes.skip(8),
            big_endian,
        )
    } else {
        mixed(hash, word_value(bytes, big_endian))
    }
}

/// `v` as a 64-bit word, in two's complement.
pub open spec fn word_of(v: int) -> u64 {
    if v >= 0 {
        v as u64
    } else {
        (0x1_0000_0000_0000_0000 + v) as u64
    }
}

/// `v` as a 64-bit word, in two's complement.
fn to_word(v: i64) -> (r: u64)
    ensures
        r == word_of(v as int),
{
    if v >= 0 {
        v as u64
    } else {
        u64::MAX - ((-(v + 1)) as u64)
    }
}

/// Hashes words by multiplying, xoring and rotating.
#[derive(Clone, Copy)]
pub struct FastHasher {
    pub hash: u64,
}

impl Default for FastHasher {
    fn default() -> (r: Self)
        ensures
            r.hash == 0,
    {
        FastHasher { hash: 0 }
    }
}

impl FastHasher {
    /// Hash one more word.
    pub fn add_word(&mut self, word: u64)
        ensures
            final(self).hash == mixed(old(self).hash, word),
    {
        let x: u64 = self.hash;
        let rotated: u64 = (x % 0x0800_0000_0000_0000) * 32 + x / 0x0800_0000_0000_0000;
        self.hash = (rotated ^ word).wrapping_mul(SEED);
    }

    /// Hash some more bytes, in the given byte order. Whole words first, then whatever is left
    /// over, so that a byte slice hashes in len/8 rounds instead of len.
    pub fn write_in_order(&mut self, bytes: &[u8], big_endian: bool)
        ensures
            final(self).hash == mixed_bytes(old(self).hash, bytes@, big_endian),
    {
        let len: usize = bytes.len();
        let mut pos: usize = 0;
        assert(bytes@.skip(0) =~= bytes@);
        while len - pos >= 8
            invariant
                pos <= len == bytes@.len(),
                mixed_bytes(self.hash, bytes@.skip(pos as int), big_endian) == mixed_bytes(
                    old(self).hash,
                    bytes@,
                    big_endian,
                ),
            decreases len - pos,
        {
            let word: u64 = word_at(bytes, pos, 8, big_endian);
            proof {
                let rest = bytes@.skip(pos as int);
                assert(rest.take(8) =~= bytes@.subrange(pos as int, pos + 8));
                assert(rest.skip(8) =~= bytes@.skip(pos + 8));
            }
            self.add_word(word);
            pos = pos + 8;
        }
        if pos < len {
            let word: u64 = word_at(bytes, pos, len - pos, big_endian);
            assert(bytes@.skip(pos as int) =~= bytes@.subrange(pos as int, len as int));
            self.add_word(word);
        }
    }
}

/// The word that the `n` bytes at `pos` make up.
fn word_at(bytes: &[u8], pos: usize, n: usize, big_endian: bool) -> (r: u64)
    requires
        n <= 8,
        pos + n <= bytes@.len(),
    ensures
        r == word_value(bytes@.subrange(pos as int, pos + n), big_endian),
{
    let len: usize = bytes.len();
    let mut buf: [u8; 8] = [0u8; 8];
    let mut idx: usize = 0;
    while idx < n
        invariant
            idx <= n <= 8,
            pos + n <= len == bytes@.len(),
            forall|j: int|
                0 <= j < 8 ==> #[trigger] buf@[j] == {
                    let i = if big_endian {
                        7 - j
                    } else {
                        j
                    };
                    if i < idx {
                        bytes@[pos + i]
                    } else {
                        0
                    }
                },
        decreases n - idx,
    {
        let at: usize = if big_endian {
            7 - idx
        } else {
            idx
        };
        buf[at] = bytes[pos + idx];
        idx = idx + 1;
    }
    proof {
        let word = bytes@.subrange(pos as int, pos + n);
        let padded = Seq::new(
            8,
            |i: int|
                if i < word.len() {
                    word[i]
                } else {
                    0u8
                },
        );
        assert(buf@ =~= if big_endian {
            padded.reverse()
        } else {
            padded
        });
        assert(buf@.subrange(0, 8) =~= buf@);
    }
    le::read_u64(buf.as_slice(), 0)
}

impl Hasher for FastHasher {
    fn finish(&self) -> (r: u64)
        ensures
            r == self.hash,
    {
        self.hash
    }

    /// Hash some more bytes, in the byte order of the machine. Which one that is rests on the
    /// machine; [`Self::write_in_order`] says what the hash is for each.
    fn write(&mut self, bytes: &[u8])
        ensures
            exists|big_endian: bool|
                final(self).hash == #[trigger] mixed_bytes(old(self).hash, bytes@, big_endian),
    {
        // A first byte of one is the least significant byte on a little-endian machine.
        let one: u64 = native_word([1u8, 0u8, 0u8, 0u8, 0u8, 0u8, 0u8, 0u8]);
        self.write_in_order(bytes, one != 1);
    }

    fn write_u8(&mut self, value: u8)
        ensures
            final(self).hash == mixed(old(self).hash, value as u64),
    {
        self.add_word(value as u64);
    }

    fn write_u16(&mut self, value: u16)
        ensures
            final(self).hash == mixed(old(self).hash, value as u64),
    {
        self.add_word(value as u64);
    }

    fn write_u32(&mut self, value: u32)
        ensures
            final(self).hash == mixed(old(self).hash, value as u64),
    {
        self.add_word(value as u64);
    }

    fn write_u64(&mut self, value: u64)
        ensures
            final(self).hash == mixed(old(self).hash, value),
    {
        self.add_word(value);
    }

    fn write_usize(&mut self, value: usize)
        ensures
            final(self).hash == mixed(old(self).hash, value as u64),
    {
        self.add_word(value as u64);
    }

    fn write_i8(&mut self, value: i8)
        ensures
            final(self).hash == mixed(old(self).hash, word_of(value as int)),
    {
        self.add_word(to_word(value as i64));
    }

    fn write_i16(&mut self, value: i16)
        ensures
            final(self).hash == mixed(old(self).hash, word_of(value as int)),
    {
        self.add_word(to_word(value as i64));
    }

    fn write_i32(&mut self, value: i32)
        ensures
            final(self).hash == mixed(old(self).hash, word_of(value as int)),
    {
        self.add_word(to_word(value as i64));
    }

    fn write_i64(&mut self, value: i64)
        ensures
            final(self).hash == mixed(old(self).hash, word_of(value as int)),
    {
        self.add_word(to_word(value));
    }

    fn write_isize(&mut self, value: isize)
        ensures
            final(self).hash == mixed(old(self).hash, word_of(value as int)),
    {
        self.add_word(to_word(value as i64));
    }
}

/// Multiplying by [`SEED`] can be undone: [`SEED`] is odd.
proof fn lemma_seed_invertible(x: u64)
    ensures
        (x.wrapping_mul(SEED) as int * 0x2040003d780970bd) % 0x1_0000_0000_0000_0000 == x,
{
    let m: int = 0x1_0000_0000_0000_0000;
    let inverse: int = 0x2040003d780970bd;
    let product = x as int * SEED as int;
    vstd::arithmetic::div_mod::lemma_mul_mod_noop_left(product, inverse, m);
    assert(SEED as int * inverse == 0xa43f77ae39dae8d * m + 1) by (nonlinear_arith)
        requires
            inverse == 0x2040003d780970bd,
            m == 0x1_0000_0000_0000_0000,
    ;
    assert(product * inverse == m * (0xa43f77ae39dae8d * x) + x) by (nonlinear_arith)
        requires
            product == x as int * SEED as int,
            SEED as int * inverse == 0xa43f77ae39dae8d * m + 1,
    ;
    vstd::arithmetic::div_mod::lemma_mod_multiples_vanish(0xa43f77ae39dae8d * x, x as int, m);
}

/// The hash depends on every bit of a word and of what was hashed before it: different words
/// after the same input, and the same word after inputs with different hashes, give different
/// hashes.
pub proof fn law_no_word_is_lost(h1: u64, h2: u64, w1: u64, w2: u64)
    ensures
        mixed(h1, w1) == mixed(h1, w2) ==> w1 == w2,
        mixed(h1, w1) == mixed(h2, w1) ==> h1 == h2,
{
    let r1 = rotated(h1);
    let r2 = rotated(h2);
    lemma_seed_invertible(r1 ^ w1);
    lemma_seed_invertible(r1 ^ w2);
    lemma_seed_invertible(r2 ^ w1);
    assert(r1 ^ w1 == r1 ^ w2 ==> w1 == w2) by (bit_vector);
    assert(r1 ^ w1 == r2 ^ w1 ==> r1 == r2) by (bit_vector);
}

} // verus!
