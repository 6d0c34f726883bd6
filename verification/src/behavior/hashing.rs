//! What a hash is made of.

use vstd::prelude::*;

use crate::fasthash;
use crate::fasthash::FastHasher;
use crate::le;

verus! {

/// `x` with its bits rotated left by five: the high five bits come back at the low end.
pub open spec fn rotated_by_five(x: u64) -> u64 {
    (x << 5u64) | (x >> 59u64)
}

/// The hash after one more word: rotated, mixed with the word, and spread by multiplying.
pub open spec fn next_hash(hash: u64, word: u64) -> int {
    ((rotated_by_five(hash) ^ word) * 0x517c_c1b7_2722_0a95) % 0x1_0000_0000_0000_0000
}

proof fn lemma_mixed(hash: u64, word: u64)
    ensures
        fasthash::mixed(hash, word) == next_hash(hash, word),
{
    let x = hash;
    assert((x << 5u64) | (x >> 59u64) == (x % 0x0800_0000_0000_0000) * 32 + x
        / 0x0800_0000_0000_0000) by (bit_vector);
    assert(fasthash::rotated(x) == rotated_by_five(x));
}

/// A new hash is zero, and hashing a word goes on from the hash so far.
pub proof fn law_word_is_hashed(fresh: FastHasher, h: &mut FastHasher, word: u64)
    requires
        call_ensures(<FastHasher as Default>::default, (), fresh),
        call_ensures(FastHasher::add_word, (h, word), ()),
    ensures
        fresh.hash == 0,
        final(h).hash == next_hash(old(h).hash, word),
{
    lemma_mixed(h.hash, word);
}

/// A number of any size is hashed as one word: itself modulo 2^64, so a negative one as its two's
/// complement.
pub proof fn law_numbers_are_words(h: &mut FastHasher, n: int, word: u64)
    requires
        -0x8000_0000_0000_0000 <= n < 0x8000_0000_0000_0000,
        word == n % 0x1_0000_0000_0000_0000,
        call_ensures(FastHasher::add_word, (h, word), ()),
    ensures
        final(h).hash == fasthash::mixed(old(h).hash, fasthash::word_of(n)),
        n >= 0 ==> final(h).hash == fasthash::mixed(old(h).hash, n as u64),
{
}

/// The number that bytes stand for, the least significant first.
pub open spec fn number_of(bytes: Seq<u8>) -> int
    decreases bytes.len(),
{
    if bytes.len() == 0 {
        0
    } else {
        bytes[0] + 256 * number_of(bytes.skip(1))
    }
}

proof fn lemma_number_of(bytes: Seq<u8>)
    ensures
        number_of(bytes) == le::le_value(bytes),
    decreases bytes.len(),
{
    if bytes.len() > 0 {
        lemma_number_of(bytes.skip(1));
    }
}

/// No bytes leave the hash as it is. Up to eight bytes are hashed as the number that they stand
/// for, with zeros behind them, in the byte order that is asked for. More of them are hashed eight
/// at a time, from the front.
pub proof fn law_bytes_are_hashed(
    before: FastHasher,
    a: &mut FastHasher,
    bytes: &[u8],
    big_endian: bool,
    b: &mut FastHasher,
    word: u64,
    c: &mut FastHasher,
    rest: &[u8],
    eight: Seq<u8>,
)
    requires
        *a == before,
        *b == before,
        call_ensures(FastHasher::write_in_order, (a, bytes, big_endian), ()),
        eight.len() == 8,
        forall|i: int|
            0 <= i < 8 ==> #[trigger] eight[i] == {
                let at = if big_endian {
                    7 - i
                } else {
                    i
                };
                if at < bytes@.len() {
                    bytes@[at]
                } else {
                    0
                }
            },
        word == number_of(eight),
        call_ensures(FastHasher::add_word, (b, word), ()),
        *c == *final(b),
        rest@ == bytes@.skip(8),
        call_ensures(FastHasher::write_in_order, (c, rest, big_endian), ()),
    ensures
        bytes@.len() == 0 ==> final(a).hash == before.hash,
        0 < bytes@.len() <= 8 ==> final(a).hash == final(b).hash,
        bytes@.len() >= 8 ==> final(a).hash == final(c).hash,
{
    lemma_number_of(eight);
    let first = if bytes@.len() >= 8 {
        bytes@.take(8)
    } else {
        bytes@
    };
    let padded = Seq::new(
        8,
        |i: int|
            if i < first.len() {
                first[i]
            } else {
                0u8
            },
    );
    assert(eight =~= if big_endian {
        padded.reverse()
    } else {
        padded
    });
    assert(fasthash::word_value(first, big_endian) == word);
    if bytes@.len() == 8 {
        assert(bytes@.skip(8) =~= Seq::empty());
        assert(fasthash::mixed_bytes(final(b).hash, bytes@.skip(8), big_endian) == final(b).hash);
    }
}

/// A word's bytes hash alike in both orders, each the reverse of the other.
pub proof fn law_byte_orders_mirror_each_other(
    b: &mut FastHasher,
    c: &mut FastHasher,
    bytes: &[u8],
    reversed: &[u8],
)
    requires
        *b == *c,
        bytes@.len() == 8,
        reversed@ == bytes@.reverse(),
        call_ensures(FastHasher::write_in_order, (b, bytes, false), ()),
        call_ensures(FastHasher::write_in_order, (c, reversed, true), ()),
    ensures
        final(b).hash == final(c).hash,
{
    reveal_with_fuel(fasthash::mixed_bytes, 2);
    let r = bytes@.reverse();
    assert(bytes@.take(8) =~= bytes@);
    assert(r.take(8) =~= r);
    let padded = Seq::new(
        8,
        |i: int|
            if i < bytes@.len() {
                bytes@[i]
            } else {
                0u8
            },
    );
    let padded2 = Seq::new(
        8,
        |i: int|
            if i < r.len() {
                r[i]
            } else {
                0u8
            },
    );
    assert(padded =~= padded2.reverse());
    assert(bytes@.skip(8) =~= Seq::empty());
    assert(r.skip(8) =~= Seq::empty());
}

} // verus!
