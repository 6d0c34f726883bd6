//! Little-endian integers in byte sequences.

use vstd::prelude::*;

verus! {

/// The `n` low bytes of `v`, least significant byte first.
pub open spec fn le_bytes(v: nat, n: nat) -> Seq<u8>
    decreases n,
{
    if n == 0 {
        Seq::empty()
    } else {
        seq![(v % 256) as u8] + le_bytes(v / 256, (n - 1) as nat)
    }
}

/// The number whose bytes are `s`, least significant byte first.
pub open spec fn le_value(s: Seq<u8>) -> nat
    decreases s.len(),
{
    if s.len() == 0 {
        0
    } else {
        s[0] as nat + 256 * le_value(s.skip(1))
    }
}

/// `256^n`, the number of values that `n` bytes can hold.
pub open spec fn byte_range(n: nat) -> nat
    decreases n,
{
    if n == 0 {
        1
    } else {
        256 * byte_range((n - 1) as nat)
    }
}

/// Eight bytes hold exactly the values of a `u64`.
pub proof fn lemma_byte_range_8()
    ensures
        byte_range(8) == 0x1_0000_0000_0000_0000,
{
    reveal_with_fuel(byte_range, 9);
}

/// `le_bytes` has the length asked for, whatever the value.
pub proof fn lemma_le_bytes_len(v: nat, n: nat)
    ensures
        le_bytes(v, n).len() == n,
    decreases n,
{
    if n > 0 {
        lemma_le_bytes_len(v / 256, (n - 1) as nat);
    }
}

/// `n` bytes hold a value below `256^n`.
pub proof fn lemma_le_value_bound(s: Seq<u8>)
    ensures
        le_value(s) < byte_range(s.len()),
    decreases s.len(),
{
    if s.len() > 0 {
        lemma_le_value_bound(s.skip(1));
    }
}

/// Reading back the bytes of a value that fits in them gives the value.
pub proof fn law_le_round_trip(v: nat, n: nat)
    requires
        v < byte_range(n),
    ensures
        le_value(le_bytes(v, n)) == v,
    decreases n,
{
    if n > 0 {
        law_le_round_trip(v / 256, (n - 1) as nat);
        assert(le_bytes(v, n).skip(1) =~= le_bytes(v / 256, (n - 1) as nat));
    }
}

/// Writing out the value of some bytes gives the bytes.
pub proof fn law_le_value_round_trip(s: Seq<u8>)
    ensures
        le_bytes(le_value(s), s.len()) == s,
    decreases s.len(),
{
    if s.len() > 0 {
        let rest = s.skip(1);
        law_le_value_round_trip(rest);
        let v = le_value(s);
        assert(v % 256 == s[0] as nat);
        assert(v / 256 == le_value(rest));
        assert(le_bytes(v, s.len()) =~= seq![s[0]] + rest);
        assert(seq![s[0]] + rest =~= s);
    } else {
        assert(le_bytes(le_value(s), 0) =~= s);
    }
}

/// The first byte of `le_bytes(v, n)`, and the bytes behind it.
pub proof fn lemma_le_bytes_step(v: nat, n: nat)
    requires
        n > 0,
    ensures
        le_bytes(v, n)[0] == (v % 256) as u8,
        le_bytes(v, n).skip(1) == le_bytes(v / 256, (n - 1) as nat),
{
    assert(le_bytes(v, n).skip(1) =~= le_bytes(v / 256, (n - 1) as nat));
}

/// Append the eight bytes of `value` to `out`.
pub fn push_u64(out: &mut Vec<u8>, value: u64)
    ensures
        final(out)@ == old(out)@ + le_bytes(value as nat, 8),
{
    let mut cur: u64 = value;
    let mut left: u32 = 8;
    assert(out@ + le_bytes(cur as nat, 8) =~= old(out)@ + le_bytes(value as nat, 8));
    while left > 0
        invariant
            left <= 8,
            out@ + le_bytes(cur as nat, left as nat) == old(out)@ + le_bytes(value as nat, 8),
        decreases left,
    {
        let ghost before = out@;
        let byte: u8 = (cur % 256) as u8;
        out.push(byte);
        proof {
            assert(before + le_bytes(cur as nat, left as nat) =~= out@ + le_bytes(
                (cur / 256) as nat,
                (left - 1) as nat,
            ));
        }
        cur = cur / 256;
        left = left - 1;
    }
    assert(out@ + le_bytes(cur as nat, 0) =~= out@);
}

/// The eight bytes of `bytes` at `pos`, read as a `u64`.
pub fn read_u64(bytes: &[u8], pos: usize) -> (value: u64)
    requires
        pos + 8 <= bytes@.len(),
    ensures
        value == le_value(bytes@.subrange(pos as int, pos + 8)),
{
    let len: usize = bytes.len();
    let mut value: u64 = 0;
    let mut idx: usize = 8;
    proof {
        assert(bytes@.subrange(pos + 8, pos + 8) =~= Seq::empty());
        reveal_with_fuel(byte_range, 9);
    }
    while idx > 0
        invariant
            idx <= 8,
            pos + 8 <= len == bytes@.len(),
            value == le_value(bytes@.subrange(pos + idx, pos + 8)),
        decreases idx,
    {
        let ghost tail = bytes@.subrange(pos + idx, pos + 8);
        idx = idx - 1;
        let byte: u8 = bytes[pos + idx];
        proof {
            let whole = bytes@.subrange(pos + idx, pos + 8);
            assert(whole.skip(1) =~= tail);
            lemma_le_value_bound(whole);
            lemma_byte_range_monotone(whole.len(), 8);
            lemma_byte_range_8();
        }
        value = value * 256 + byte as u64;
    }
    value
}

/// More bytes hold at least as many values.
pub proof fn lemma_byte_range_monotone(a: nat, b: nat)
    requires
        a <= b,
    ensures
        byte_range(a) <= byte_range(b),
    decreases b - a,
{
    if a < b {
        lemma_byte_range_monotone(a, (b - 1) as nat);
    }
}

/// The bytes of `bytes` with the eight at `pos` replaced by those of `value`.
pub open spec fn patched(bytes: Seq<u8>, pos: int, value: u64) -> Seq<u8> {
    bytes.subrange(0, pos) + le_bytes(value as nat, 8) + bytes.subrange(
        pos + 8,
        bytes.len() as int,
    )
}

/// Replace the eight bytes of `bytes` at `pos` by those of `value`.
pub fn write_u64_at(bytes: &mut Vec<u8>, pos: usize, value: u64)
    requires
        pos + 8 <= old(bytes)@.len(),
    ensures
        final(bytes)@ == patched(old(bytes)@, pos as int, value),
{
    let len: usize = bytes.len();
    let mut cur: u64 = value;
    let mut idx: usize = 0;
    let ghost orig = bytes@;
    proof {
        lemma_le_bytes_len(value as nat, 8);
        assert(le_bytes(value as nat, 8).skip(0) =~= le_bytes(value as nat, 8));
    }
    while idx < 8
        invariant
            idx <= 8,
            pos + 8 <= len == orig.len(),
            bytes@.len() == orig.len(),
            le_bytes(value as nat, 8).len() == 8,
            le_bytes(cur as nat, (8 - idx) as nat) == le_bytes(value as nat, 8).skip(idx as int),
            forall|i: int|
                0 <= i < orig.len() ==> bytes@[i] == if pos <= i < pos + idx {
                    le_bytes(value as nat, 8)[i - pos]
                } else {
                    orig[i]
                },
        decreases 8 - idx,
    {
        proof {
            lemma_le_bytes_step(cur as nat, (8 - idx) as nat);
            assert(le_bytes(value as nat, 8).skip(idx as int).skip(1) =~= le_bytes(
                value as nat,
                8,
            ).skip(idx + 1));
            assert(le_bytes(value as nat, 8).skip(idx as int)[0] == le_bytes(value as nat, 8)[idx as int]);
        }
        bytes[pos + idx] = (cur % 256) as u8;
        cur = cur / 256;
        idx = idx + 1;
    }
    assert(bytes@ =~= patched(orig, pos as int, value));
}

} // verus!
