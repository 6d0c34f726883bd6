//! Optimized bitset implementation.
//!
//! A set of `num_bits` bits is kept in whole 128-bit entries, so its last entry may have
//! bits to spare. They are always clear, so that whatever works on whole entries says nothing
//! of bits that the set does not have: two sets with the same members are equal however they
//! were built, and an operation reports a change only if a member changed.

use vstd::prelude::*;

verus! {

/// [`From::from`] for a type and itself, which [`Into::into`] calls: the argument is returned
/// unchanged.
pub assume_specification<Same>[ <Same as std::convert::From<Same>>::from ](same: Same) -> (r: Same)
    ensures
        r == same,
;

/// Whether `i` is the number that `idx` is converted to.
pub open spec fn numbers<T: Into<usize>>(idx: T, i: usize) -> bool {
    call_ensures(<T as Into<usize>>::into, (idx,), i)
}

/// Whether `idx` is converted to a number below `n`.
pub open spec fn below<T: Into<usize>>(idx: T, n: nat) -> bool {
    forall|i: usize| #[trigger] numbers(idx, i) ==> i < n
}

/// How many bits an entry has.
pub const ENTRY_NUM_BITS: usize = 128;

/// How many entries `num_bits` bits take.
pub open spec fn entry_count(num_bits: nat) -> nat {
    (num_bits + 127) / 128
}

/// Bit `b` of an entry.
pub open spec fn bit(entry: u128, b: int) -> bool {
    entry & (1u128 << (b as u128)) != 0
}

/// The bits of some entries, lowest first.
pub open spec fn bits_of(entries: Seq<u128>) -> Seq<bool> {
    Seq::new(128 * entries.len(), |i: int| bit(entries[i / 128], i % 128))
}

/// The positions below `n` at which `bits` are set, in order.
pub open spec fn set_positions(bits: Seq<bool>, n: nat) -> Seq<usize>
    decreases n,
{
    if n == 0 {
        Seq::empty()
    } else {
        let init = set_positions(bits, (n - 1) as nat);
        if bits[n - 1] {
            init.push((n - 1) as usize)
        } else {
            init
        }
    }
}

/// The positions below `n` depend on the first `n` bits alone.
proof fn lemma_positions_same(a: Seq<bool>, b: Seq<bool>, n: nat)
    requires
        forall|i: int| 0 <= i < n ==> a[i] == b[i],
    ensures
        set_positions(a, n) == set_positions(b, n),
    decreases n,
{
    if n > 0 {
        lemma_positions_same(a, b, (n - 1) as nat);
    }
}

proof fn lemma_positions_prefix(bits: Seq<bool>, n: nat)
    requires
        n <= bits.len(),
    ensures
        set_positions(bits.take(n as int), n) == set_positions(bits, n),
{
    lemma_positions_same(bits.take(n as int), bits, n);
}

/// The bits set in `a` or `b`.
pub open spec fn union_bits(a: Seq<bool>, b: Seq<bool>) -> Seq<bool> {
    Seq::new(a.len(), |i: int| a[i] || b[i])
}

/// The bits set in `a` and `b`.
pub open spec fn common_bits(a: Seq<bool>, b: Seq<bool>) -> Seq<bool> {
    Seq::new(a.len(), |i: int| a[i] && b[i])
}

/// The bits set in `a` but not in `b`.
pub open spec fn other_bits(a: Seq<bool>, b: Seq<bool>) -> Seq<bool> {
    Seq::new(a.len(), |i: int| a[i] && !b[i])
}

/// `n` bits that are all `value`.
pub open spec fn same_bits(n: nat, value: bool) -> Seq<bool> {
    Seq::new(n, |i: int| value)
}

proof fn lemma_or(x: u128, y: u128, b: u128)
    by (bit_vector)
    ensures
        (x | y) & (1u128 << b) != 0 <==> (x & (1u128 << b) != 0 || y & (1u128 << b) != 0),
{
}

proof fn lemma_and(x: u128, y: u128, b: u128)
    by (bit_vector)
    ensures
        (x & y) & (1u128 << b) != 0 <==> (x & (1u128 << b) != 0 && y & (1u128 << b) != 0),
{
}

proof fn lemma_and_not(x: u128, y: u128, b: u128)
    by (bit_vector)
    requires
        b < 128,
    ensures
        (x & !y) & (1u128 << b) != 0 <==> (x & (1u128 << b) != 0 && !(y & (1u128 << b) != 0)),
{
}

proof fn lemma_constant(b: u128)
    by (bit_vector)
    requires
        b < 128,
    ensures
        0u128 & (1u128 << b) == 0,
        !0u128 & (1u128 << b) != 0,
{
}

proof fn lemma_single(b: u128, c: u128)
    by (bit_vector)
    requires
        b < 128,
        c < 128,
    ensures
        (1u128 << b) & (1u128 << c) != 0 <==> b == c,
{
}

proof fn lemma_ext_step(x: u128, y: u128, b: u128)
    by (bit_vector)
    requires
        b < 128,
        b == 0 || (x ^ y) << ((128 - b) as u128) == 0,
        (x & (1u128 << b) != 0) == (y & (1u128 << b) != 0),
    ensures
        (x ^ y) << ((127 - b) as u128) == 0,
{
}

proof fn lemma_ext_low(x: u128, y: u128, n: u128)
    requires
        n <= 128,
        forall|b: int| 0 <= b < n ==> bit(x, b) == #[trigger] bit(y, b),
    ensures
        n == 0 || (x ^ y) << ((128 - n) as u128) == 0,
    decreases n,
{
    if n > 0 {
        lemma_ext_low(x, y, (n - 1) as u128);
        assert(bit(x, n - 1) == bit(y, n - 1));
        lemma_ext_step(x, y, (n - 1) as u128);
    }
}

/// Entries with the same bits are the same.
proof fn lemma_ext(x: u128, y: u128)
    requires
        forall|b: int| 0 <= b < 128 ==> bit(x, b) == #[trigger] bit(y, b),
    ensures
        x == y,
{
    lemma_ext_low(x, y, 128);
    assert((x ^ y) << 0u128 == 0 ==> x == y) by (bit_vector);
}

/// Bit `b` of entry `k` is bit `128 * k + b` of all.
proof fn lemma_bits_index(entries: Seq<u128>, k: int, b: int)
    requires
        0 <= k < entries.len(),
        0 <= b < 128,
    ensures
        bits_of(entries)[128 * k + b] == bit(entries[k], b),
        0 <= 128 * k + b < 128 * entries.len(),
{
    assert((128 * k + b) / 128 == k);
    assert((128 * k + b) % 128 == b);
}

/// Entries are the same exactly when their bits are.
proof fn lemma_bits_ext(a: Seq<u128>, b: Seq<u128>)
    ensures
        a == b <==> bits_of(a) == bits_of(b),
{
    if bits_of(a) == bits_of(b) {
        assert(128 * a.len() == bits_of(a).len());
        assert(128 * b.len() == bits_of(b).len());
        assert forall|k: int| 0 <= k < a.len() implies a[k] == b[k] by {
            assert forall|c: int| 0 <= c < 128 implies bit(a[k], c) == #[trigger] bit(b[k], c) by {
                lemma_bits_index(a, k, c);
                lemma_bits_index(b, k, c);
            }
            lemma_ext(a[k], b[k]);
        }
        assert(a =~= b);
    }
}

/// Changing one bit of one entry changes that bit of all.
proof fn lemma_bits_update(entries: Seq<u128>, k: int, b: int, entry: u128, value: bool)
    requires
        0 <= k < entries.len(),
        0 <= b < 128,
        forall|c: int|
            0 <= c < 128 ==> (#[trigger] bit(entry, c)) == if c == b {
                value
            } else {
                bit(entries[k], c)
            },
    ensures
        bits_of(entries.update(k, entry)) == bits_of(entries).update(128 * k + b, value),
{
    let after = bits_of(entries.update(k, entry));
    let want = bits_of(entries).update(128 * k + b, value);
    assert forall|i: int| 0 <= i < after.len() implies after[i] == want[i] by {
        if i / 128 == k {
            assert(bit(entry, i % 128) == if i % 128 == b {
                value
            } else {
                bit(entries[k], i % 128)
            });
        }
    }
    assert(after =~= want);
}

/// The bits from `n` on are clear.
pub open spec fn spare_clear(bits: Seq<bool>, n: nat) -> bool {
    forall|i: int| n <= i < bits.len() ==> !#[trigger] bits[i]
}

/// The low `r` bits are set, and no others.
proof fn lemma_low_mask(r: u128, b: u128)
    by (bit_vector)
    requires
        r < 128,
        b < 128,
    ensures
        1u128 << r >= 1,
        ((1u128 << r) - 1) as u128 & (1u128 << b) != 0 <==> b < r,
{
}

/// Entries whose spare bits are clear are the same exactly when their first `n` bits are.
proof fn lemma_first_bits_ext(a: Seq<u128>, b: Seq<u128>, n: nat)
    requires
        a.len() == b.len(),
        n <= 128 * a.len(),
        spare_clear(bits_of(a), n),
        spare_clear(bits_of(b), n),
    ensures
        a == b <==> bits_of(a).take(n as int) == bits_of(b).take(n as int),
{
    let x = bits_of(a);
    let y = bits_of(b);
    lemma_bits_ext(a, b);
    if x.take(n as int) == y.take(n as int) {
        assert forall|i: int| 0 <= i < x.len() implies x[i] == y[i] by {
            if i < n {
                assert(x.take(n as int)[i] == y.take(n as int)[i]);
            } else {
                assert(!x[i] && !y[i]);
            }
        }
        assert(x =~= y);
    }
}

/// Bit `idx` of some entries.
fn get_bit(entries: &[u128], idx: usize) -> (r: bool)
    requires
        idx < 128 * entries@.len(),
    ensures
        r == bits_of(entries@)[idx as int],
{
    let entry_idx: usize = idx / ENTRY_NUM_BITS;
    let bit_idx: usize = idx % ENTRY_NUM_BITS;
    entries[entry_idx] & (1u128 << (bit_idx as u128)) != 0
}

/// Set the bit that is `idx` bits after the entry at `start`. Returns whether it was clear.
fn set_bit(entries: &mut Vec<u128>, start: usize, idx: usize) -> (r: bool)
    requires
        start + idx / 128 < old(entries)@.len(),
    ensures
        bits_of(final(entries)@) == bits_of(old(entries)@).update(128 * start + idx, true),
        r == !bits_of(old(entries)@)[128 * start + idx],
{
    let len: usize = entries.len();
    let ghost before = entries@;
    let entry_idx: usize = start + idx / ENTRY_NUM_BITS;
    let bit_idx: usize = idx % ENTRY_NUM_BITS;
    let mask: u128 = 1u128 << (bit_idx as u128);
    let entry: u128 = entries[entry_idx];
    let newly_inserted: bool = (entry & mask) == 0;
    proof {
        lemma_bits_index(before, entry_idx as int, bit_idx as int);
        assert(128 * entry_idx + bit_idx == 128 * start + idx);
        assert forall|c: int| 0 <= c < 128 implies (#[trigger] bit(entry | mask, c)) == if c
            == bit_idx {
            true
        } else {
            bit(entry, c)
        } by {
            lemma_or(entry, mask, c as u128);
            lemma_single(bit_idx as u128, c as u128);
        }
        lemma_bits_update(before, entry_idx as int, bit_idx as int, entry | mask, true);
    }
    entries[entry_idx] = entry | mask;
    assert(entries@ =~= before.update(entry_idx as int, entry | mask));
    newly_inserted
}

/// Clear bit `idx`. Returns whether it was set.
fn clear_bit(entries: &mut Vec<u128>, idx: usize) -> (r: bool)
    requires
        idx < 128 * old(entries)@.len(),
    ensures
        bits_of(final(entries)@) == bits_of(old(entries)@).update(idx as int, false),
        r == bits_of(old(entries)@)[idx as int],
{
    let ghost before = entries@;
    let entry_idx: usize = idx / ENTRY_NUM_BITS;
    let bit_idx: usize = idx % ENTRY_NUM_BITS;
    let mask: u128 = 1u128 << (bit_idx as u128);
    let entry: u128 = entries[entry_idx];
    let was_set: bool = (entry & mask) != 0;
    proof {
        lemma_bits_index(before, entry_idx as int, bit_idx as int);
        assert forall|c: int| 0 <= c < 128 implies (#[trigger] bit(entry & !mask, c)) == if c
            == bit_idx {
            false
        } else {
            bit(entry, c)
        } by {
            lemma_and_not(entry, mask, c as u128);
            lemma_single(bit_idx as u128, c as u128);
        }
        lemma_bits_update(before, entry_idx as int, bit_idx as int, entry & !mask, false);
    }
    entries[entry_idx] = entry & !mask;
    assert(entries@ =~= before.update(entry_idx as int, entry & !mask));
    was_set
}

/// The entries from `start` on, `n` of them.
pub open spec fn part(entries: Seq<u128>, start: int, n: int) -> Seq<u128> {
    entries.subrange(start, start + n)
}

/// `after` differs from `before` at most in the `n` entries from `start` on.
pub open spec fn same_outside(before: Seq<u128>, after: Seq<u128>, start: int, n: int) -> bool {
    &&& after.len() == before.len()
    &&& forall|i: int|
        0 <= i < before.len() && !(start <= i < start + n) ==> #[trigger] after[i] == before[i]
}

/// Set all bits of the `n` entries from `start` on to `value`.
fn fill(entries: &mut Vec<u128>, start: usize, n: usize, value: bool)
    requires
        start + n <= old(entries)@.len(),
    ensures
        same_outside(old(entries)@, final(entries)@, start as int, n as int),
        bits_of(part(final(entries)@, start as int, n as int)) == same_bits(128 * n as nat, value),
{
    let len: usize = entries.len();
    let ghost before = entries@;
    let entry: u128 = if value {
        !0u128
    } else {
        0u128
    };
    let mut idx: usize = 0;
    while idx < n
        invariant
            idx <= n,
            start + n <= len == entries@.len(),
            same_outside(before, entries@, start as int, n as int),
            forall|i: int| start <= i < start + idx ==> entries@[i] == entry,
        decreases n - idx,
    {
        entries[start + idx] = entry;
        idx = idx + 1;
    }
    proof {
        let filled = part(entries@, start as int, n as int);
        let got = bits_of(filled);
        assert forall|i: int| 0 <= i < got.len() implies got[i] == value by {
            assert(filled[i / 128] == entry);
            lemma_constant((i % 128) as u128);
        }
        assert(got =~= same_bits(128 * n as nat, value));
    }
}

/// Set `num_bits` bits from the entry at `start` on, and clear those that the last entry has to
/// spare.
fn fill_ones(entries: &mut Vec<u128>, start: usize, num_bits: usize)
    requires
        start + entry_count(num_bits as nat) <= old(entries)@.len(),
    ensures
        same_outside(
            old(entries)@,
            final(entries)@,
            start as int,
            entry_count(num_bits as nat) as int,
        ),
        ({
            let bits = bits_of(
                part(final(entries)@, start as int, entry_count(num_bits as nat) as int),
            );
            &&& spare_clear(bits, num_bits as nat)
            &&& bits.take(num_bits as int) == same_bits(num_bits as nat, true)
        }),
{
    let len: usize = entries.len();
    let n: usize = entries_for(num_bits);
    fill(entries, start, n, true);
    let ghost filled = entries@;
    let ghost ones = bits_of(part(filled, start as int, n as int));
    let rest: usize = num_bits % ENTRY_NUM_BITS;
    if rest != 0 {
        proof {
            lemma_low_mask(rest as u128, 0);
        }
        let mask: u128 = (1u128 << (rest as u128)) - 1;
        entries[start + n - 1] = mask;
        assert(entries@ =~= filled.update(start + n - 1, mask));
    }
    proof {
        let got = part(entries@, start as int, n as int);
        let bits = bits_of(got);
        assert forall|i: int| 0 <= i < bits.len() implies #[trigger] bits[i] == (i < num_bits) by {
            assert(ones[i]);
            if rest != 0 && i / 128 == n - 1 {
                lemma_low_mask(rest as u128, (i % 128) as u128);
            } else {
                assert(got[i / 128] == part(filled, start as int, n as int)[i / 128]);
            }
        }
        assert(bits.take(num_bits as int) =~= same_bits(num_bits as nat, true));
    }
}

/// Overwrite entries from `start` on with `src`.
fn copy_at(entries: &mut Vec<u128>, start: usize, src: &[u128])
    requires
        start + src@.len() <= old(entries)@.len(),
    ensures
        same_outside(old(entries)@, final(entries)@, start as int, src@.len() as int),
        part(final(entries)@, start as int, src@.len() as int) == src@,
{
    let len: usize = entries.len();
    let ghost before = entries@;
    let mut idx: usize = 0;
    while idx < src.len()
        invariant
            idx <= src@.len(),
            start + src@.len() <= len == entries@.len(),
            same_outside(before, entries@, start as int, src@.len() as int),
            forall|i: int| 0 <= i < idx ==> entries@[start + i] == #[trigger] src@[i],
        decreases src@.len() - idx,
    {
        entries[start + idx] = src[idx];
        idx = idx + 1;
    }
    assert(part(entries@, start as int, src@.len() as int) =~= src@);
}

/// How two sets are combined.
#[derive(Clone, Copy, PartialEq, Eq, Structural)]
enum Combine {
    Union,
    Intersect,
    Difference,
}

spec fn combined(op: Combine, a: Seq<bool>, b: Seq<bool>) -> Seq<bool> {
    match op {
        Combine::Union => union_bits(a, b),
        Combine::Intersect => common_bits(a, b),
        Combine::Difference => other_bits(a, b),
    }
}

spec fn combined_entry(op: Combine, x: u128, y: u128) -> u128 {
    match op {
        Combine::Union => x | y,
        Combine::Intersect => x & y,
        Combine::Difference => x & !y,
    }
}

proof fn lemma_combined(op: Combine, a: Seq<u128>, b: Seq<u128>, c: Seq<u128>)
    requires
        a.len() == b.len() == c.len(),
        forall|i: int| 0 <= i < a.len() ==> #[trigger] c[i] == combined_entry(op, a[i], b[i]),
    ensures
        bits_of(c) == combined(op, bits_of(a), bits_of(b)),
{
    let got = bits_of(c);
    let want = combined(op, bits_of(a), bits_of(b));
    assert forall|i: int| 0 <= i < got.len() implies got[i] == want[i] by {
        let k = i / 128;
        let d = (i % 128) as u128;
        assert(c[k] == combined_entry(op, a[k], b[k]));
        lemma_or(a[k], b[k], d);
        lemma_and(a[k], b[k], d);
        lemma_and_not(a[k], b[k], d);
    }
    assert(got =~= want);
}

/// Combine entries from `start` on with `src`. Returns whether anything changed.
fn combine_at(entries: &mut Vec<u128>, start: usize, src: &[u128], op: Combine) -> (changed: bool)
    requires
        start + src@.len() <= old(entries)@.len(),
    ensures
        same_outside(old(entries)@, final(entries)@, start as int, src@.len() as int),
        bits_of(part(final(entries)@, start as int, src@.len() as int)) == combined(
            op,
            bits_of(part(old(entries)@, start as int, src@.len() as int)),
            bits_of(src@),
        ),
        changed <==> part(final(entries)@, start as int, src@.len() as int) != part(
            old(entries)@,
            start as int,
            src@.len() as int,
        ),
{
    let len: usize = entries.len();
    let ghost before = entries@;
    let mut changed: bool = false;
    let mut idx: usize = 0;
    while idx < src.len()
        invariant
            idx <= src@.len(),
            start + src@.len() <= len == entries@.len() == before.len(),
            same_outside(before, entries@, start as int, src@.len() as int),
            forall|i: int|
                0 <= i < idx ==> entries@[start + i] == combined_entry(
                    op,
                    before[start + i],
                    #[trigger] src@[i],
                ),
            forall|i: int| start + idx <= i < len ==> #[trigger] entries@[i] == before[i],
            changed <==> exists|i: int|
                start <= i < start + idx && #[trigger] entries@[i] != before[i],
        decreases src@.len() - idx,
    {
        let ghost now = entries@;
        let x: u128 = entries[start + idx];
        let y: u128 = src[idx];
        let z: u128 = match op {
            Combine::Union => x | y,
            Combine::Intersect => x & y,
            Combine::Difference => x & !y,
        };
        entries[start + idx] = z;
        changed = changed || z != x;
        idx = idx + 1;
        proof {
            assert(entries@ =~= now.update(start + idx - 1, z));
            if exists|i: int| start <= i < start + idx - 1 && #[trigger] now[i] != before[i] {
                let i = choose|i: int| start <= i < start + idx - 1 && #[trigger] now[i] != before[i];
                assert(entries@[i] != before[i]);
            }
            if z != x {
                assert(entries@[start + idx - 1] != before[start + idx - 1]);
            }
            if exists|i: int| start <= i < start + idx && #[trigger] entries@[i] != before[i] {
                let i = choose|i: int| start <= i < start + idx && #[trigger] entries@[i]
                    != before[i];
                if i < start + idx - 1 {
                    assert(now[i] != before[i]);
                }
            }
        }
    }
    proof {
        let n = src@.len() as int;
        let a = part(before, start as int, n);
        let c = part(entries@, start as int, n);
        assert forall|i: int| 0 <= i < n implies #[trigger] c[i] == combined_entry(
            op,
            a[i],
            src@[i],
        ) by {
            assert(entries@[start + i] == combined_entry(op, before[start + i], src@[i]));
        }
        lemma_combined(op, a, src@, c);
        if changed {
            let i = choose|i: int| start <= i < start + idx && #[trigger] entries@[i] != before[i];
            assert(c[i - start] != a[i - start]);
        } else {
            assert forall|i: int| 0 <= i < n implies c[i] == a[i] by {
                assert(entries@[start + i] == before[start + i]);
            }
            assert(c =~= a);
        }
    }
    changed
}

/// Whether two runs of entries are the same.
fn same_entries(a: &[u128], b: &[u128]) -> (r: bool)
    requires
        a@.len() == b@.len(),
    ensures
        r <==> a@ == b@,
{
    let mut idx: usize = 0;
    while idx < a.len()
        invariant
            idx <= a@.len() == b@.len(),
            forall|i: int| 0 <= i < idx ==> a@[i] == b@[i],
        decreases a@.len() - idx,
    {
        if a[idx] != b[idx] {
            return false;
        }
        idx = idx + 1;
    }
    assert(a@ =~= b@);
    true
}

/// Bit `c` of half an entry.
spec fn half_bit(half: u64, c: int) -> bool {
    half & (1u64 << (c as u64)) != 0
}

proof fn lemma_halves(entry: u128, c: u64)
    by (bit_vector)
    requires
        c < 64,
    ensures
        (entry as u64) & (1u64 << c) != 0 <==> entry & (1u128 << (c as u128)) != 0,
        ((entry >> 64u128) as u64) & (1u64 << c) != 0 <==> entry & (1u128 << ((c + 64) as u128)) != 0,
{
}

proof fn lemma_half_shift(half: u64, c: u64)
    by (bit_vector)
    requires
        c < 64,
    ensures
        (half >> c) & 1u64 == 1u64 <==> half & (1u64 << c) != 0,
        (half >> c) & 1u64 == 0u64 <==> half & (1u64 << c) == 0,
        0u64 & (1u64 << c) == 0,
{
}

/// Taking one away clears the lowest set bit and what is below it.
proof fn lemma_clear_lowest(half: u64, low: u64, c: u64)
    by (bit_vector)
    requires
        low < 64,
        c < 64,
        (half >> low) & 1u64 == 1u64,
        low == 0 || half << ((64 - low) as u64) == 0,
    ensures
        half & ((half - 1) as u64) & (1u64 << c) != 0 <==> (half & (1u64 << c) != 0 && c != low),
{
}

/// Clear bits add no positions.
proof fn lemma_positions_skip(bits: Seq<bool>, from: nat, to: nat)
    requires
        from <= to,
        forall|i: int| from <= i < to ==> !bits[i],
    ensures
        set_positions(bits, from) == set_positions(bits, to),
    decreases to - from,
{
    if from < to {
        lemma_positions_skip(bits, from, (to - 1) as nat);
    }
}

/// The positions of the set bits in a row of entries. Only visits bits that are set.
fn iter_set_bits(entries: &[u128], num_bits: usize) -> (r: Vec<usize>)
    requires
        entries@.len() == entry_count(num_bits as nat),
        spare_clear(bits_of(entries@), num_bits as nat),
    ensures
        r@ == set_positions(bits_of(entries@), num_bits as nat),
{
    let ghost bits = bits_of(entries@);
    let mut positions: Vec<usize> = Vec::new();
    let halves: usize = entries.len() * 2;
    let mut half_idx: usize = 0;
    while half_idx < halves
        invariant
            half_idx <= halves == 2 * entries@.len(),
            entries@.len() == entry_count(num_bits as nat),
            bits == bits_of(entries@),
            spare_clear(bits, num_bits as nat),
            positions@ == set_positions(bits, (64 * half_idx) as nat),
        decreases halves - half_idx,
    {
        let entry: u128 = entries[half_idx / 2];
        let mut rest: u64 = if half_idx % 2 == 0 {
            entry as u64
        } else {
            (entry >> 64u128) as u64
        };
        let ghost start = 64 * half_idx;
        let ghost mut done: int = 0;
        proof {
            assert forall|c: int| 0 <= c < 64 implies #[trigger] half_bit(rest, c) == bits[start
                + c] by {
                lemma_halves(entry, c as u64);
                assert((start + c) / 128 == half_idx / 2);
                assert((start + c) % 128 == c + 64 * (half_idx % 2));
            }
        }
        while rest != 0
            invariant
                0 <= done <= 64,
                start == 64 * half_idx,
                half_idx < halves == 2 * entries@.len(),
                bits == bits_of(entries@),
                spare_clear(bits, num_bits as nat),
                forall|c: int|
                    0 <= c < 64 ==> #[trigger] half_bit(rest, c) == (done <= c && bits[start + c]),
                positions@ == set_positions(bits, (start + done) as nat),
            decreases 64 - done,
        {
            let low: u32 = rest.trailing_zeros();
            proof {
                vstd::std_specs::bits::axiom_u64_trailing_zeros(rest);
                lemma_half_shift(rest, low as u64);
                assert(half_bit(rest, low as int));
                assert forall|i: int| start + done <= i < start + low implies !bits[i] by {
                    let c = i - start;
                    assert((rest >> (c as u64)) & 1u64 == 0u64);
                    lemma_half_shift(rest, c as u64);
                    assert(!half_bit(rest, c));
                }
                lemma_positions_skip(bits, (start + done) as nat, (start + low) as nat);
                assert(bits[start + low]);
                assert(start + low < num_bits);
            }
            positions.push(half_idx * 64 + low as usize);
            let ghost before = rest;
            rest = rest & (rest - 1);  // Clear the lowest set bit
            proof {
                assert forall|c: int| 0 <= c < 64 implies #[trigger] half_bit(rest, c) == (low + 1
                    <= c && bits[start + c]) by {
                    lemma_clear_lowest(before, low as u64, c as u64);
                    assert(half_bit(before, c) == (done <= c && bits[start + c]));
                    if c < low {
                        assert((before >> (c as u64)) & 1u64 == 0u64);
                        lemma_half_shift(before, c as u64);
                    }
                }
                done = low + 1;
            }
        }
        proof {
            assert forall|i: int| start + done <= i < start + 64 implies !bits[i] by {
                lemma_half_shift(0, (i - start) as u64);
                assert(!half_bit(rest, i - start));
            }
            lemma_positions_skip(bits, (start + done) as nat, (start + 64) as nat);
        }
        half_idx = half_idx + 1;
    }
    proof {
        lemma_positions_skip(bits, num_bits as nat, (64 * halves) as nat);
    }
    positions
}

/// How many entries `num_bits` bits take.
fn entries_for(num_bits: usize) -> (r: usize)
    ensures
        r == entry_count(num_bits as nat),
{
    if num_bits % ENTRY_NUM_BITS == 0 {
        num_bits / ENTRY_NUM_BITS
    } else {
        num_bits / ENTRY_NUM_BITS + 1
    }
}

/// A set of numbers below a bound.
pub struct BitSet<T: Into<usize> + Copy> {
    entries: Vec<u128>,
    num_bits: usize,
    phantom: core::marker::PhantomData<T>,
}

impl<T: Into<usize> + Copy> Clone for BitSet<T> {
    fn clone(&self) -> (r: Self)
        ensures
            r.wf() == self.wf(),
            r.spec_num_bits() == self.spec_num_bits(),
            r.bits() == self.bits(),
    {
        let entries: Vec<u128> = self.entries.clone();
        assert(entries@ =~= self.entries@);
        let r = BitSet { entries, num_bits: self.num_bits, phantom: core::marker::PhantomData };
        assert(r.bits() =~= self.bits());
        r
    }
}

impl<T: Into<usize> + Copy> BitSet<T> {
    /// How many bits the set has.
    pub closed spec fn spec_num_bits(&self) -> nat {
        self.num_bits as nat
    }

    /// Whether bit `i` is set.
    pub closed spec fn has(&self, i: int) -> bool {
        bits_of(self.entries@)[i]
    }

    /// The bits of the set.
    pub open spec fn bits(&self) -> Seq<bool> {
        Seq::new(self.spec_num_bits(), |i: int| self.has(i))
    }

    /// There are as many entries as the bits take, and the bits to spare are clear.
    pub closed spec fn wf(&self) -> bool {
        &&& self.entries@.len() == entry_count(self.num_bits as nat)
        &&& spare_clear(bits_of(self.entries@), self.num_bits as nat)
    }

    /// The number of bits is one that can be counted.
    pub proof fn lemma_num_bits(&self)
        ensures
            self.spec_num_bits() <= usize::MAX,
    {
    }

    /// The set's bits are the first ones of its entries.
    proof fn lemma_bits(&self)
        requires
            self.entries@.len() == entry_count(self.num_bits as nat),
        ensures
            self.bits() == bits_of(self.entries@).take(self.num_bits as int),
    {
        assert(self.bits() =~= bits_of(self.entries@).take(self.num_bits as int));
    }

    /// An empty set of numbers below `num_bits`.
    pub fn with_capacity(num_bits: usize) -> (r: Self)
        ensures
            r.wf(),
            r.spec_num_bits() == num_bits,
            r.bits() == same_bits(num_bits as nat, false),
    {
        let num_entries: usize = entries_for(num_bits);
        let entries: Vec<u128> = vec![0u128; num_entries];
        proof {
            let got = bits_of(entries@);
            assert forall|i: int| 0 <= i < got.len() implies got[i] == false by {
                assert(entries@[i / 128] == 0);
                lemma_constant((i % 128) as u128);
            }
        }
        let r = BitSet { entries, num_bits, phantom: core::marker::PhantomData };
        assert(r.bits() =~= same_bits(num_bits as nat, false));
        r
    }

    /// Returns whether the value was newly inserted: true if the set did not originally
    /// contain the bit, and false otherwise.
    pub fn insert(&mut self, idx: T) -> (r: bool)
        requires
            old(self).wf(),
            below(idx, old(self).spec_num_bits()),
        ensures
            final(self).wf(),
            final(self).spec_num_bits() == old(self).spec_num_bits(),
            exists|i: usize| #[trigger]
                numbers(idx, i) && i < old(self).spec_num_bits() && final(self).bits() == old(
                    self,
                ).bits().update(i as int, true) && r == !old(self).bits()[i as int],
    {
        let at: usize = idx.into();
        assert(numbers(idx, at));
        vstd::pervasive::runtime_assert(at < self.num_bits);
        let r: bool = set_bit(&mut self.entries, 0, at);
        proof {
            assert(bits_of(self.entries@).len() == bits_of(old(self).entries@).len());
            assert(self.bits() =~= old(self).bits().update(at as int, true));
        }
        r
    }

    /// Set all bits to 0, keeping the allocation. Lets a dataflow loop reuse one scratch set
    /// instead of allocating a fresh one per block per iteration.
    pub fn clear(&mut self)
        requires
            old(self).wf(),
        ensures
            final(self).wf(),
            final(self).spec_num_bits() == old(self).spec_num_bits(),
            final(self).bits() == same_bits(old(self).spec_num_bits(), false),
    {
        let n: usize = self.entries.len();
        fill(&mut self.entries, 0, n, false);
        assert(part(self.entries@, 0, n as int) =~= self.entries@);
        assert(self.bits() =~= same_bits(old(self).spec_num_bits(), false));
    }

    /// Overwrite `self` with `other`, keeping `self`'s allocation. `self` and `other` must
    /// have the same number of bits.
    pub fn copy_from(&mut self, other: &Self)
        requires
            old(self).wf(),
            other.wf(),
            old(self).spec_num_bits() == other.spec_num_bits(),
        ensures
            final(self).wf(),
            final(self).spec_num_bits() == old(self).spec_num_bits(),
            final(self).bits() == other.bits(),
    {
        vstd::pervasive::runtime_assert(self.num_bits == other.num_bits);
        copy_at(&mut self.entries, 0, other.entries.as_slice());
        assert(part(self.entries@, 0, other.entries@.len() as int) =~= self.entries@);
        assert(self.bits() =~= other.bits());
    }

    /// Set all bits to 1.
    pub fn insert_all(&mut self)
        requires
            old(self).wf(),
        ensures
            final(self).wf(),
            final(self).spec_num_bits() == old(self).spec_num_bits(),
            final(self).bits() == same_bits(old(self).spec_num_bits(), true),
    {
        fill_ones(&mut self.entries, 0, self.num_bits);
        proof {
            assert(part(self.entries@, 0, self.entries@.len() as int) =~= self.entries@);
            self.lemma_bits();
        }
    }

    /// Clear a bit. Returns whether the bit was previously set.
    pub fn remove(&mut self, idx: T) -> (r: bool)
        requires
            old(self).wf(),
            below(idx, old(self).spec_num_bits()),
        ensures
            final(self).wf(),
            final(self).spec_num_bits() == old(self).spec_num_bits(),
            exists|i: usize| #[trigger]
                numbers(idx, i) && i < old(self).spec_num_bits() && final(self).bits() == old(
                    self,
                ).bits().update(i as int, false) && r == old(self).bits()[i as int],
    {
        let at: usize = idx.into();
        assert(numbers(idx, at));
        vstd::pervasive::runtime_assert(at < self.num_bits);
        let r: bool = clear_bit(&mut self.entries, at);
        proof {
            assert(bits_of(self.entries@).len() == bits_of(old(self).entries@).len());
            assert(self.bits() =~= old(self).bits().update(at as int, false));
        }
        r
    }

    /// Whether a bit is set.
    pub fn get(&self, idx: T) -> (r: bool)
        requires
            self.wf(),
            below(idx, self.spec_num_bits()),
        ensures
            exists|i: usize| #[trigger]
                numbers(idx, i) && i < self.spec_num_bits() && r == self.bits()[i as int],
    {
        let at: usize = idx.into();
        assert(numbers(idx, at));
        vstd::pervasive::runtime_assert(at < self.num_bits);
        get_bit(self.entries.as_slice(), at)
    }

    /// Combine `self` with `other`. Returns whether `self` changed.
    fn combine_with(&mut self, other: &[u128], op: Combine) -> (r: bool)
        requires
            old(self).wf(),
            other@.len() == entry_count(old(self).spec_num_bits()),
            spare_clear(bits_of(other@), old(self).spec_num_bits()),
        ensures
            final(self).wf(),
            final(self).spec_num_bits() == old(self).spec_num_bits(),
            final(self).bits() == combined(
                op,
                old(self).bits(),
                bits_of(other@).take(old(self).spec_num_bits() as int),
            ),
            r == (final(self).bits() != old(self).bits()),
    {
        let r: bool = combine_at(&mut self.entries, 0, other, op);
        proof {
            let n = self.num_bits as nat;
            assert(part(self.entries@, 0, other@.len() as int) =~= self.entries@);
            assert(part(old(self).entries@, 0, other@.len() as int) =~= old(self).entries@);
            assert(spare_clear(bits_of(self.entries@), n));
            self.lemma_bits();
            old(self).lemma_bits();
            lemma_first_bits_ext(self.entries@, old(self).entries@, n);
            assert(self.bits() =~= combined(
                op,
                old(self).bits(),
                bits_of(other@).take(n as int),
            ));
        }
        r
    }

    /// Modify `self` to only have bits set if they are also set in `other`. Returns true if
    /// `self` was modified, and false otherwise. `self` and `other` must have the same number
    /// of bits.
    pub fn intersect_with(&mut self, other: &Self) -> (r: bool)
        requires
            old(self).wf(),
            other.wf(),
            old(self).spec_num_bits() == other.spec_num_bits(),
        ensures
            final(self).wf(),
            final(self).spec_num_bits() == old(self).spec_num_bits(),
            final(self).bits() == common_bits(old(self).bits(), other.bits()),
            r == (final(self).bits() != old(self).bits()),
    {
        vstd::pervasive::runtime_assert(self.num_bits == other.num_bits);
        proof {
            other.lemma_bits();
        }
        self.combine_with(other.entries.as_slice(), Combine::Intersect)
    }

    /// Modify `self` to have bits set if they are set in either `self` or `other`. Returns
    /// true if `self` was modified, and false otherwise. `self` and `other` must have the
    /// same number of bits.
    pub fn union_with(&mut self, other: &Self) -> (r: bool)
        requires
            old(self).wf(),
            other.wf(),
            old(self).spec_num_bits() == other.spec_num_bits(),
        ensures
            final(self).wf(),
            final(self).spec_num_bits() == old(self).spec_num_bits(),
            final(self).bits() == union_bits(old(self).bits(), other.bits()),
            r == (final(self).bits() != old(self).bits()),
    {
        vstd::pervasive::runtime_assert(self.num_bits == other.num_bits);
        proof {
            other.lemma_bits();
        }
        self.combine_with(other.entries.as_slice(), Combine::Union)
    }

    /// Modify `self` to remove bits that are set in `other`. Returns true if `self` was
    /// modified, and false otherwise. `self` and `other` must have the same number of bits.
    pub fn difference_with(&mut self, other: &Self) -> (r: bool)
        requires
            old(self).wf(),
            other.wf(),
            old(self).spec_num_bits() == other.spec_num_bits(),
        ensures
            final(self).wf(),
            final(self).spec_num_bits() == old(self).spec_num_bits(),
            final(self).bits() == other_bits(old(self).bits(), other.bits()),
            r == (final(self).bits() != old(self).bits()),
    {
        vstd::pervasive::runtime_assert(self.num_bits == other.num_bits);
        proof {
            other.lemma_bits();
        }
        self.combine_with(other.entries.as_slice(), Combine::Difference)
    }

    /// Check if two BitSets are equal. `self` and `other` must have the same number of bits.
    pub fn equals(&self, other: &Self) -> (r: bool)
        requires
            self.wf(),
            other.wf(),
            self.spec_num_bits() == other.spec_num_bits(),
        ensures
            r == (forall|i: int|
                0 <= i < self.spec_num_bits() ==> #[trigger] self.bits()[i] == other.bits()[i]),
            r == (self.bits() == other.bits()),
    {
        vstd::pervasive::runtime_assert(self.num_bits == other.num_bits);
        proof {
            self.lemma_bits();
            other.lemma_bits();
            lemma_first_bits_ext(self.entries@, other.entries@, self.num_bits as nat);
            if forall|i: int|
                0 <= i < self.spec_num_bits() ==> #[trigger] self.bits()[i] == other.bits()[i] {
                assert(self.bits() =~= other.bits());
            }
        }
        same_entries(self.entries.as_slice(), other.entries.as_slice())
    }

    /// The indices of set bits, in order.
    pub fn iter_set_bits(&self) -> (r: Vec<usize>)
        requires
            self.wf(),
        ensures
            r@ == set_positions(self.bits(), self.spec_num_bits()),
    {
        proof {
            self.lemma_bits();
            lemma_positions_prefix(bits_of(self.entries@), self.num_bits as nat);
        }
        iter_set_bits(self.entries.as_slice(), self.num_bits)
    }

    /// Union in one row of a [`BitMatrix`]. Returns whether `self` changed.
    pub fn union_with_row(&mut self, other: BitRow<'_, T>) -> (r: bool)
        requires
            old(self).wf(),
            other.wf(),
            old(self).spec_num_bits() == other.spec_num_bits(),
        ensures
            final(self).wf(),
            final(self).spec_num_bits() == old(self).spec_num_bits(),
            final(self).bits() == union_bits(old(self).bits(), other.bits()),
            r == (final(self).bits() != old(self).bits()),
    {
        vstd::pervasive::runtime_assert(self.num_bits == other.num_bits);
        proof {
            other.lemma_bits();
        }
        self.combine_with(other.entries, Combine::Union)
    }

    /// Remove the bits set in one row of a [`BitMatrix`]. Returns whether `self` changed.
    pub fn difference_with_row(&mut self, other: BitRow<'_, T>) -> (r: bool)
        requires
            old(self).wf(),
            other.wf(),
            old(self).spec_num_bits() == other.spec_num_bits(),
        ensures
            final(self).wf(),
            final(self).spec_num_bits() == old(self).spec_num_bits(),
            final(self).bits() == other_bits(old(self).bits(), other.bits()),
            r == (final(self).bits() != old(self).bits()),
    {
        vstd::pervasive::runtime_assert(self.num_bits == other.num_bits);
        proof {
            other.lemma_bits();
        }
        self.combine_with(other.entries, Combine::Difference)
    }

    /// Overwrite `self` with one row of a [`BitMatrix`], keeping `self`'s allocation.
    pub fn copy_from_row(&mut self, other: BitRow<'_, T>)
        requires
            old(self).wf(),
            other.wf(),
            old(self).spec_num_bits() == other.spec_num_bits(),
        ensures
            final(self).wf(),
            final(self).spec_num_bits() == old(self).spec_num_bits(),
            final(self).bits() == other.bits(),
    {
        vstd::pervasive::runtime_assert(self.num_bits == other.num_bits);
        copy_at(&mut self.entries, 0, other.entries);
        assert(part(self.entries@, 0, other.entries@.len() as int) =~= self.entries@);
        assert(self.bits() =~= other.bits());
    }

    /// Whether `self` holds exactly the bits in one row of a [`BitMatrix`].
    pub fn equals_row(&self, other: BitRow<'_, T>) -> (r: bool)
        requires
            self.wf(),
            other.wf(),
            self.spec_num_bits() == other.spec_num_bits(),
        ensures
            r == (forall|i: int|
                0 <= i < self.spec_num_bits() ==> #[trigger] self.bits()[i] == other.bits()[i]),
            r == (self.bits() == other.bits()),
    {
        vstd::pervasive::runtime_assert(self.num_bits == other.num_bits);
        proof {
            self.lemma_bits();
            other.lemma_bits();
            lemma_first_bits_ext(self.entries@, other.entries@, self.num_bits as nat);
            if forall|i: int|
                0 <= i < self.spec_num_bits() ==> #[trigger] self.bits()[i] == other.bits()[i] {
                assert(self.bits() =~= other.bits());
            }
        }
        same_entries(self.entries.as_slice(), other.entries)
    }
}

/// One row of a [`BitMatrix`], borrowed. Same bit-set semantics as [`BitSet`], but with no
/// allocation of its own.
pub struct BitRow<'a, T: Into<usize> + Copy> {
    entries: &'a [u128],
    num_bits: usize,
    phantom: core::marker::PhantomData<T>,
}

impl<'a, T: Into<usize> + Copy> Clone for BitRow<'a, T> {
    fn clone(&self) -> (r: Self)
        ensures
            r == *self,
    {
        *self
    }
}

impl<'a, T: Into<usize> + Copy> Copy for BitRow<'a, T> {

}

impl<'a, T: Into<usize> + Copy> BitRow<'a, T> {
    /// How many bits the row has.
    pub closed spec fn spec_num_bits(&self) -> nat {
        self.num_bits as nat
    }

    /// Whether bit `i` is set.
    pub closed spec fn has(&self, i: int) -> bool {
        bits_of(self.entries@)[i]
    }

    /// The bits of the row.
    pub open spec fn bits(&self) -> Seq<bool> {
        Seq::new(self.spec_num_bits(), |i: int| self.has(i))
    }

    /// There are as many entries as the bits take, and the bits to spare are clear.
    pub closed spec fn wf(&self) -> bool {
        &&& self.entries@.len() == entry_count(self.num_bits as nat)
        &&& spare_clear(bits_of(self.entries@), self.num_bits as nat)
    }

    /// The row's bits are the first ones of its entries.
    proof fn lemma_bits(&self)
        requires
            self.entries@.len() == entry_count(self.num_bits as nat),
        ensures
            self.bits() == bits_of(self.entries@).take(self.num_bits as int),
    {
        assert(self.bits() =~= bits_of(self.entries@).take(self.num_bits as int));
    }

    /// Whether a bit is set.
    pub fn get(&self, idx: T) -> (r: bool)
        requires
            self.wf(),
            below(idx, self.spec_num_bits()),
        ensures
            exists|i: usize| #[trigger]
                numbers(idx, i) && i < self.spec_num_bits() && r == self.bits()[i as int],
    {
        let at: usize = idx.into();
        assert(numbers(idx, at));
        vstd::pervasive::runtime_assert(at < self.num_bits);
        get_bit(self.entries, at)
    }

    /// The indices of set bits, in order.
    pub fn iter_set_bits(&self) -> (r: Vec<usize>)
        requires
            self.wf(),
        ensures
            r@ == set_positions(self.bits(), self.spec_num_bits()),
    {
        proof {
            self.lemma_bits();
            lemma_positions_prefix(bits_of(self.entries@), self.num_bits as nat);
        }
        iter_set_bits(self.entries, self.num_bits)
    }
}

/// `rows` bit sets of `num_bits` bits each, in a single allocation.
///
/// Dataflow passes keep one set per basic block, and one [`BitSet`] per block costs a heap
/// allocation *and* a copy per block per set. The row width is fixed at construction, which
/// is all the dataflow passes need.
pub struct BitMatrix<T: Into<usize> + Copy> {
    entries: Vec<u128>,
    /// Entries per row. Rows are laid out contiguously.
    row_entries: usize,
    num_bits: usize,
    phantom: core::marker::PhantomData<T>,
}

/// A later row starts no earlier than an earlier one ends.
proof fn lemma_rows_apart(row: int, other: int, width: int)
    by (nonlinear_arith)
    requires
        0 <= row,
        0 <= other,
        0 <= width,
        row != other,
    ensures
        (row + 1) * width == row * width + width,
        (other + 1) * width == other * width + width,
        other > row ==> row * width + width <= other * width,
        other < row ==> other * width + width <= row * width,
        0 <= row * width,
        0 <= other * width,
{
}

impl<T: Into<usize> + Copy> BitMatrix<T> {
    /// How many bits each row has.
    pub closed spec fn spec_num_bits(&self) -> nat {
        self.num_bits as nat
    }

    /// Whether there is a row `row`.
    pub closed spec fn has_row(&self, row: int) -> bool {
        0 <= row && (row + 1) * self.row_entries <= self.entries@.len()
    }

    /// All bits of the entries of a row, those to spare included.
    spec fn all_bits(&self, row: int) -> Seq<bool> {
        bits_of(part(self.entries@, row * self.row_entries, self.row_entries as int))
    }

    /// Whether bit `i` of a row is set.
    pub closed spec fn row_has(&self, row: int, i: int) -> bool {
        self.all_bits(row)[i]
    }

    /// The bits of a row.
    pub open spec fn row_bits(&self, row: int) -> Seq<bool> {
        Seq::new(self.spec_num_bits(), |i: int| self.row_has(row, i))
    }

    /// A row has as many entries as its bits take, and the bits to spare are clear.
    pub closed spec fn wf(&self) -> bool {
        &&& self.row_entries == entry_count(self.num_bits as nat)
        &&& forall|row: int|
            self.has_row(row) ==> spare_clear(#[trigger] self.all_bits(row), self.num_bits as nat)
    }

    /// A row's bits are the first ones of its entries.
    proof fn lemma_row_bits(&self, row: int)
        requires
            self.row_entries == entry_count(self.num_bits as nat),
            self.has_row(row),
        ensures
            self.row_bits(row) == self.all_bits(row).take(self.num_bits as int),
            self.all_bits(row).len() == 128 * self.row_entries,
    {
        lemma_rows_apart(row, row + 1, self.row_entries as int);
        assert(self.row_bits(row) =~= self.all_bits(row).take(self.num_bits as int));
    }

    /// Whether `self` and `before` differ at most in the bits of row `row`.
    pub open spec fn same_but_row(&self, before: &Self, row: int) -> bool {
        &&& self.spec_num_bits() == before.spec_num_bits()
        &&& forall|r: int| #[trigger] self.has_row(r) == before.has_row(r)
        &&& forall|r: int|
            before.has_row(r) && r != row ==> #[trigger] self.row_bits(r) == before.row_bits(r)
    }

    /// What changes only the entries of a row changes only that row.
    proof fn lemma_same_but_row(&self, before: &Self, row: int)
        requires
            before.has_row(row),
            self.num_bits == before.num_bits,
            self.row_entries == before.row_entries,
            same_outside(
                before.entries@,
                self.entries@,
                row * before.row_entries,
                before.row_entries as int,
            ),
            before.wf(),
            spare_clear(self.all_bits(row), self.num_bits as nat),
        ensures
            self.same_but_row(before, row),
            self.wf(),
    {
        let w = before.row_entries as int;
        assert forall|r: int| before.has_row(r) && r != row implies #[trigger] self.all_bits(r)
            == before.all_bits(r) by {
            lemma_rows_apart(row, r, w);
            assert(part(self.entries@, r * w, w) =~= part(before.entries@, r * w, w));
        }
        assert forall|r: int| before.has_row(r) && r != row implies #[trigger] self.row_bits(r)
            == before.row_bits(r) by {
            assert(self.all_bits(r) == before.all_bits(r));
            assert(self.row_bits(r) =~= before.row_bits(r));
        }
    }

    /// A matrix with every bit clear.
    pub fn new(rows: usize, num_bits: usize) -> (r: Self)
        requires
            rows * entry_count(num_bits as nat) <= usize::MAX,
        ensures
            r.wf(),
            r.spec_num_bits() == num_bits,
            forall|row: int| 0 <= row < rows ==> #[trigger] r.has_row(row),
            forall|row: int|
                0 <= row < rows ==> #[trigger] r.row_bits(row) == same_bits(
                    num_bits as nat,
                    false,
                ),
    {
        let row_entries: usize = entries_for(num_bits);
        let entries: Vec<u128> = vec![0u128; rows * row_entries];
        let r = BitMatrix {
            entries,
            row_entries,
            num_bits,
            phantom: core::marker::PhantomData,
        };
        proof {
            let w = row_entries as int;
            assert forall|row: int| 0 <= row < rows implies #[trigger] r.has_row(row) by {
                assert((row + 1) * w <= rows * w) by (nonlinear_arith)
                    requires
                        0 <= row < rows,
                        0 <= w,
                ;
            }
            assert forall|row: int| r.has_row(row) implies spare_clear(
                #[trigger] r.all_bits(row),
                num_bits as nat,
            ) && r.row_bits(row) == same_bits(num_bits as nat, false) by {
                r.lemma_row_bits(row);
                lemma_rows_apart(row, row + 1, w);
                let got = r.all_bits(row);
                assert forall|i: int| 0 <= i < got.len() implies got[i] == false by {
                    assert(entries@[row * w + i / 128] == 0);
                    lemma_constant((i % 128) as u128);
                }
                assert(r.row_bits(row) =~= same_bits(num_bits as nat, false));
            }
            assert forall|row: int| 0 <= row < rows implies #[trigger] r.row_bits(row)
                == same_bits(num_bits as nat, false) by {
                assert(r.has_row(row));
                assert(spare_clear(r.all_bits(row), num_bits as nat));
            }
        }
        r
    }

    /// Where the entries of a row start.
    fn start_of(&self, row: usize) -> (r: usize)
        requires
            self.has_row(row as int),
        ensures
            r == row * self.row_entries,
            r + self.row_entries <= self.entries@.len(),
    {
        let len: usize = self.entries.len();
        proof {
            lemma_rows_apart(row as int, row + 1, self.row_entries as int);
        }
        row * self.row_entries
    }

    /// Borrow one row.
    pub fn row(&self, row: usize) -> (r: BitRow<'_, T>)
        requires
            self.wf(),
            self.has_row(row as int),
        ensures
            r.wf(),
            r.spec_num_bits() == self.spec_num_bits(),
            r.bits() == self.row_bits(row as int),
    {
        let len: usize = self.entries.len();
        let start: usize = self.start_of(row);
        let r = BitRow {
            entries: vstd::slice::slice_subrange(
                self.entries.as_slice(),
                start,
                start + self.row_entries,
            ),
            num_bits: self.num_bits,
            phantom: core::marker::PhantomData,
        };
        proof {
            assert(bits_of(r.entries@) == self.all_bits(row as int));
            assert(r.bits() =~= self.row_bits(row as int));
        }
        r
    }

    /// Returns whether the bit was newly inserted.
    pub fn insert(&mut self, row: usize, idx: T) -> (r: bool)
        requires
            old(self).wf(),
            old(self).has_row(row as int),
            below(idx, old(self).spec_num_bits()),
        ensures
            final(self).wf(),
            final(self).same_but_row(old(self), row as int),
            exists|i: usize| #[trigger]
                numbers(idx, i) && i < old(self).spec_num_bits() && final(self).row_bits(
                    row as int,
                ) == old(self).row_bits(row as int).update(i as int, true) && r == !old(
                    self,
                ).row_bits(row as int)[i as int],
    {
        let at: usize = idx.into();
        assert(numbers(idx, at));
        vstd::pervasive::runtime_assert(at < self.num_bits);
        let start: usize = self.start_of(row);
        let w: usize = self.row_entries;
        let ghost before = self.entries@;
        let r: bool = set_bit(&mut self.entries, start, at);
        proof {
            let after = self.entries@;
            assert(bits_of(after).len() == bits_of(before).len());
            assert(after.len() == before.len());
            let k = start + at / 128;
            assert forall|i: int| 0 <= i < before.len() && i != k implies #[trigger] after[i]
                == before[i] by {
                assert forall|c: int| 0 <= c < 128 implies bit(after[i], c) == #[trigger] bit(
                    before[i],
                    c,
                ) by {
                    lemma_bits_index(after, i, c);
                    lemma_bits_index(before, i, c);
                }
                lemma_ext(after[i], before[i]);
            }
            let old_row = part(before, start as int, w as int);
            let new_row = part(after, start as int, w as int);
            assert forall|i: int| 0 <= i < 128 * w implies bits_of(new_row)[i] == #[trigger] bits_of(
                after,
            )[128 * start + i] && bits_of(old_row)[i] == bits_of(before)[128 * start + i] by {
                assert((128 * start + i) / 128 == start + i / 128);
                assert((128 * start + i) % 128 == i % 128);
            }
            assert(bits_of(old_row)[at as int] == bits_of(before)[128 * start + at]) by {
                assert(bits_of(after)[128 * start + at] == true);
            }
            assert forall|i: int| 0 <= i < 128 * w implies bits_of(new_row)[i] == bits_of(
                old_row,
            ).update(at as int, true)[i] by {
                assert(bits_of(new_row)[i] == bits_of(after)[128 * start + i]);
            }
            assert(bits_of(new_row) =~= bits_of(old_row).update(at as int, true));
            assert(self.all_bits(row as int) == bits_of(new_row));
            assert(old(self).all_bits(row as int) == bits_of(old_row));
            self.lemma_same_but_row(old(self), row as int);
            assert(self.row_bits(row as int) =~= old(self).row_bits(row as int).update(
                at as int,
                true,
            ));
        }
        r
    }

    /// Whether a bit of a row is set.
    pub fn get(&self, row: usize, idx: T) -> (r: bool)
        requires
            self.wf(),
            self.has_row(row as int),
            below(idx, self.spec_num_bits()),
        ensures
            exists|i: usize| #[trigger]
                numbers(idx, i) && i < self.spec_num_bits() && r == self.row_bits(
                    row as int,
                )[i as int],
    {
        self.row(row).get(idx)
    }

    /// Set every bit in one row.
    pub fn insert_all_row(&mut self, row: usize)
        requires
            old(self).wf(),
            old(self).has_row(row as int),
        ensures
            final(self).wf(),
            final(self).same_but_row(old(self), row as int),
            final(self).row_bits(row as int) == same_bits(old(self).spec_num_bits(), true),
    {
        let start: usize = self.start_of(row);
        fill_ones(&mut self.entries, start, self.num_bits);
        proof {
            self.lemma_same_but_row(old(self), row as int);
            self.lemma_row_bits(row as int);
        }
    }

    /// Intersect one row with `other`, returning whether the row changed.
    pub fn intersect_row_with(&mut self, row: usize, other: &BitSet<T>) -> (r: bool)
        requires
            old(self).wf(),
            old(self).has_row(row as int),
            other.wf(),
            old(self).spec_num_bits() == other.spec_num_bits(),
        ensures
            final(self).wf(),
            final(self).same_but_row(old(self), row as int),
            final(self).row_bits(row as int) == common_bits(
                old(self).row_bits(row as int),
                other.bits(),
            ),
            r == (final(self).row_bits(row as int) != old(self).row_bits(row as int)),
    {
        vstd::pervasive::runtime_assert(self.num_bits == other.num_bits);
        let start: usize = self.start_of(row);
        let r: bool = combine_at(
            &mut self.entries,
            start,
            other.entries.as_slice(),
            Combine::Intersect,
        );
        proof {
            let w = self.row_entries as int;
            let n = self.num_bits as nat;
            other.lemma_bits();
            old(self).lemma_row_bits(row as int);
            assert(spare_clear(old(self).all_bits(row as int), n));
            assert(spare_clear(self.all_bits(row as int), n));
            self.lemma_same_but_row(old(self), row as int);
            self.lemma_row_bits(row as int);
            lemma_first_bits_ext(
                part(self.entries@, start as int, w),
                part(old(self).entries@, start as int, w),
                n,
            );
            assert(self.row_bits(row as int) =~= common_bits(
                old(self).row_bits(row as int),
                other.bits(),
            ));
        }
        r
    }

    /// Overwrite one row with the contents of `src`, which must be the same width.
    pub fn copy_row_from(&mut self, row: usize, src: &BitSet<T>)
        requires
            old(self).wf(),
            old(self).has_row(row as int),
            src.wf(),
            old(self).spec_num_bits() == src.spec_num_bits(),
        ensures
            final(self).wf(),
            final(self).same_but_row(old(self), row as int),
            final(self).row_bits(row as int) == src.bits(),
    {
        vstd::pervasive::runtime_assert(self.num_bits == src.num_bits);
        let start: usize = self.start_of(row);
        copy_at(&mut self.entries, start, src.entries.as_slice());
        proof {
            src.lemma_bits();
            self.lemma_same_but_row(old(self), row as int);
            self.lemma_row_bits(row as int);
        }
    }
}

/// The members that a set reports are those of its bits that are set, each once, in order.
pub proof fn law_positions_are_the_set_bits(bits: Seq<bool>, n: nat)
    requires
        n <= bits.len(),
        n <= usize::MAX,
    ensures
        forall|i: int| 0 <= i < n ==> (bits[i] <==> set_positions(bits, n).contains(i as usize)),
        forall|k: int|
            0 <= k < set_positions(bits, n).len() ==> (#[trigger] set_positions(bits, n)[k]) < n,
        forall|j: int, k: int|
            0 <= j < k < set_positions(bits, n).len() ==> (#[trigger] set_positions(bits, n)[j]) < (
            #[trigger] set_positions(bits, n)[k]),
    decreases n,
{
    if n > 0 {
        let m = (n - 1) as nat;
        law_positions_are_the_set_bits(bits, m);
        let init = set_positions(bits, m);
        let all = set_positions(bits, n);
        assert forall|i: int| 0 <= i < n implies (bits[i] <==> all.contains(i as usize)) by {
            if bits[m as int] {
                assert(all[init.len() as int] == m);
            }
            if i < m {
                assert(bits[i] <==> init.contains(i as usize));
                if init.contains(i as usize) {
                    let k = choose|k: int| 0 <= k < init.len() && init[k] == i as usize;
                    assert(all[k] == i as usize);
                }
                if all.contains(i as usize) {
                    let k = choose|k: int| 0 <= k < all.len() && all[k] == i as usize;
                    if k < init.len() {
                        assert(init[k] == i as usize);
                    }
                }
            } else {
                if all.contains(i as usize) && !bits[i] {
                    let k = choose|k: int| 0 <= k < all.len() && all[k] == i as usize;
                    assert(init[k] < m);
                }
            }
        }
    }
}

/// Removing what was added, intersecting with everything, and adding or removing nothing
/// leave a set as it was. Adding and removing a set again changes nothing more.
pub proof fn law_set_algebra(a: Seq<bool>, b: Seq<bool>)
    requires
        a.len() == b.len(),
    ensures
        common_bits(a, same_bits(a.len(), true)) == a,
        union_bits(a, same_bits(a.len(), false)) == a,
        other_bits(a, same_bits(a.len(), false)) == a,
        other_bits(a, a) == same_bits(a.len(), false),
        union_bits(union_bits(a, b), b) == union_bits(a, b),
        common_bits(common_bits(a, b), b) == common_bits(a, b),
        other_bits(other_bits(a, b), b) == other_bits(a, b),
        union_bits(other_bits(a, b), common_bits(a, b)) == a,
{
    assert(common_bits(a, same_bits(a.len(), true)) =~= a);
    assert(union_bits(a, same_bits(a.len(), false)) =~= a);
    assert(other_bits(a, same_bits(a.len(), false)) =~= a);
    assert(other_bits(a, a) =~= same_bits(a.len(), false));
    assert(union_bits(union_bits(a, b), b) =~= union_bits(a, b));
    assert(common_bits(common_bits(a, b), b) =~= common_bits(a, b));
    assert(other_bits(other_bits(a, b), b) =~= other_bits(a, b));
    assert(union_bits(other_bits(a, b), common_bits(a, b)) =~= a);
}

} // verus!
