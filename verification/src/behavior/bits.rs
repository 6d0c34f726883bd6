//! What is in a bit set after what was done with it.

use vstd::prelude::*;

use crate::bitset;
use crate::bitset::{BitMatrix, BitRow, BitSet};

verus! {

/// Whether every index is converted to the number that `num` says.
pub open spec fn numbered<T: Into<usize> + Copy>(num: spec_fn(T) -> usize) -> bool {
    forall|idx: T, i: usize| #[trigger]
        call_ensures(<T as Into<usize>>::into, (idx,), i) ==> i == num(idx)
}

/// A new set has no member. A member that is inserted is one from then on, and was new if it was
/// none before. One that is removed is none from then on. All others stay what they were.
pub proof fn law_membership<T: Into<usize> + Copy>(
    num: spec_fn(T) -> usize,
    n: usize,
    fresh: &BitSet<T>,
    before: &BitSet<T>,
    a: &mut BitSet<T>,
    b: &mut BitSet<T>,
    idx: T,
    added: bool,
    removed: bool,
    with: &BitSet<T>,
    without: &BitSet<T>,
    other: T,
    in_fresh: bool,
    was_idx: bool,
    was: bool,
    in_with: bool,
    in_without: bool,
)
    requires
        numbered(num),
        call_ensures(BitSet::<T>::with_capacity, (n,), *fresh),
        call_ensures(BitSet::<T>::get, (fresh, other), in_fresh),
        call_ensures(BitSet::<T>::get, (before, idx), was_idx),
        call_ensures(BitSet::<T>::get, (before, other), was),
        *a == *before,
        call_ensures(BitSet::<T>::insert, (a, idx), added),
        *with == *final(a),
        call_ensures(BitSet::<T>::get, (with, other), in_with),
        *b == *before,
        call_ensures(BitSet::<T>::remove, (b, idx), removed),
        *without == *final(b),
        call_ensures(BitSet::<T>::get, (without, other), in_without),
    ensures
        !in_fresh,
        fresh.spec_num_bits() == n,
        added == !was_idx,
        removed == was_idx,
        in_with <==> was || num(other) == num(idx),
        in_without <==> was && num(other) != num(idx),
        with.spec_num_bits() == before.spec_num_bits(),
        without.spec_num_bits() == before.spec_num_bits(),
{
    lemma_get(num, before, idx, was_idx);
    lemma_get(num, before, other, was);
    lemma_get(num, fresh, other, in_fresh);
    lemma_get(num, with, other, in_with);
    lemma_get(num, without, other, in_without);
    let i = choose|i: usize| #[trigger]
        bitset::numbers(idx, i) && i < before.spec_num_bits() && with.bits()
            == before.bits().update(i as int, true) && added == !before.bits()[i as int];
    assert(i == num(idx));
    let j = choose|j: usize| #[trigger]
        bitset::numbers(idx, j) && j < before.spec_num_bits() && without.bits()
            == before.bits().update(j as int, false) && removed == before.bits()[j as int];
    assert(j == num(idx));
}

/// Asking for a member looks at its bit.
proof fn lemma_get<T: Into<usize> + Copy>(
    num: spec_fn(T) -> usize,
    set: &BitSet<T>,
    idx: T,
    r: bool,
)
    requires
        numbered(num),
        call_ensures(BitSet::<T>::get, (set, idx), r),
    ensures
        num(idx) < set.spec_num_bits(),
        r == set.bits()[num(idx) as int],
{
    let i = choose|i: usize| #[trigger]
        bitset::numbers(idx, i) && i < set.spec_num_bits() && r == set.bits()[i as int];
    assert(i == num(idx));
}

/// A cleared set has no member, a filled one has all, and a copy has those of the other.
pub proof fn law_all_at_once<T: Into<usize> + Copy>(
    num: spec_fn(T) -> usize,
    a: &mut BitSet<T>,
    cleared: &BitSet<T>,
    b: &mut BitSet<T>,
    filled: &BitSet<T>,
    c: &mut BitSet<T>,
    source: &BitSet<T>,
    copied: &BitSet<T>,
    idx: T,
    in_cleared: bool,
    in_filled: bool,
    in_source: bool,
    in_copied: bool,
)
    requires
        numbered(num),
        call_ensures(BitSet::<T>::clear, (a,), ()),
        *cleared == *final(a),
        call_ensures(BitSet::<T>::insert_all, (b,), ()),
        *filled == *final(b),
        c.spec_num_bits() == source.spec_num_bits(),
        call_ensures(BitSet::<T>::copy_from, (c, source), ()),
        *copied == *final(c),
        call_ensures(BitSet::<T>::get, (cleared, idx), in_cleared),
        call_ensures(BitSet::<T>::get, (filled, idx), in_filled),
        call_ensures(BitSet::<T>::get, (source, idx), in_source),
        call_ensures(BitSet::<T>::get, (copied, idx), in_copied),
    ensures
        !in_cleared,
        in_filled,
        in_copied == in_source,
        cleared.spec_num_bits() == old(a).spec_num_bits(),
        filled.spec_num_bits() == old(b).spec_num_bits(),
        copied.spec_num_bits() == old(c).spec_num_bits(),
{
    lemma_get(num, cleared, idx, in_cleared);
    lemma_get(num, filled, idx, in_filled);
    lemma_get(num, source, idx, in_source);
    lemma_get(num, copied, idx, in_copied);
}

/// Whether some member of a set became none, or the other way round.
pub open spec fn changed<T: Into<usize> + Copy>(a: &BitSet<T>, b: &BitSet<T>) -> bool {
    exists|i: int| 0 <= i < a.spec_num_bits() && #[trigger] a.bits()[i] != b.bits()[i]
}

proof fn lemma_changed<T: Into<usize> + Copy>(a: &BitSet<T>, b: &BitSet<T>)
    requires
        a.spec_num_bits() == b.spec_num_bits(),
    ensures
        changed(a, b) <==> a.bits() != b.bits(),
{
    if !changed(a, b) {
        assert(a.bits() =~= b.bits());
    }
}

/// The members of two sets together, the common ones, and those of the one that are none of the
/// other. Each operation says whether it changed anything.
pub proof fn law_combined<T: Into<usize> + Copy>(
    num: spec_fn(T) -> usize,
    before: &BitSet<T>,
    other: &BitSet<T>,
    a: &mut BitSet<T>,
    b: &mut BitSet<T>,
    c: &mut BitSet<T>,
    joined: &BitSet<T>,
    common: &BitSet<T>,
    rest: &BitSet<T>,
    r_joined: bool,
    r_common: bool,
    r_rest: bool,
    idx: T,
    in_before: bool,
    in_other: bool,
    in_joined: bool,
    in_common: bool,
    in_rest: bool,
)
    requires
        numbered(num),
        before.spec_num_bits() == other.spec_num_bits(),
        *a == *before,
        *b == *before,
        *c == *before,
        call_ensures(BitSet::<T>::union_with, (a, other), r_joined),
        call_ensures(BitSet::<T>::intersect_with, (b, other), r_common),
        call_ensures(BitSet::<T>::difference_with, (c, other), r_rest),
        *joined == *final(a),
        *common == *final(b),
        *rest == *final(c),
        call_ensures(BitSet::<T>::get, (before, idx), in_before),
        call_ensures(BitSet::<T>::get, (other, idx), in_other),
        call_ensures(BitSet::<T>::get, (joined, idx), in_joined),
        call_ensures(BitSet::<T>::get, (common, idx), in_common),
        call_ensures(BitSet::<T>::get, (rest, idx), in_rest),
    ensures
        in_joined <==> in_before || in_other,
        in_common <==> in_before && in_other,
        in_rest <==> in_before && !in_other,
        r_joined <==> changed(before, joined),
        r_common <==> changed(before, common),
        r_rest <==> changed(before, rest),
{
    lemma_get(num, before, idx, in_before);
    lemma_get(num, other, idx, in_other);
    lemma_get(num, joined, idx, in_joined);
    lemma_get(num, common, idx, in_common);
    lemma_get(num, rest, idx, in_rest);
    lemma_changed(before, joined);
    lemma_changed(before, common);
    lemma_changed(before, rest);
}

/// Sets are equal if they have the same members, and a clone of a set is equal to it.
pub proof fn law_equality<T: Into<usize> + Copy>(
    num: spec_fn(T) -> usize,
    a: &BitSet<T>,
    b: &BitSet<T>,
    r: bool,
    cloned: &BitSet<T>,
    idx: T,
    in_a: bool,
    in_b: bool,
    in_cloned: bool,
)
    requires
        numbered(num),
        a.spec_num_bits() == b.spec_num_bits(),
        call_ensures(BitSet::<T>::equals, (a, b), r),
        call_ensures(<BitSet<T> as Clone>::clone, (a,), *cloned),
        call_ensures(BitSet::<T>::get, (a, idx), in_a),
        call_ensures(BitSet::<T>::get, (b, idx), in_b),
        call_ensures(BitSet::<T>::get, (cloned, idx), in_cloned),
    ensures
        r ==> in_a == in_b,
        !r ==> changed(a, b),
        in_cloned == in_a,
        cloned.spec_num_bits() == a.spec_num_bits(),
{
    lemma_get(num, a, idx, in_a);
    lemma_get(num, b, idx, in_b);
    lemma_get(num, cloned, idx, in_cloned);
    if r {
        assert(a.bits() == b.bits());
    }
}

/// Going through the members of a set finds each of them once, from the smallest up.
pub proof fn law_members_in_order<T: Into<usize> + Copy>(
    num: spec_fn(T) -> usize,
    set: &BitSet<T>,
    members: Vec<usize>,
    idx: T,
    r: bool,
)
    requires
        numbered(num),
        call_ensures(BitSet::<T>::iter_set_bits, (set,), members),
        call_ensures(BitSet::<T>::get, (set, idx), r),
    ensures
        members@.contains(num(idx)) <==> r,
        forall|i: int, j: int| 0 <= i < j < members@.len() ==> members@[i] < members@[j],
        forall|i: int| 0 <= i < members@.len() ==> #[trigger] members@[i] < set.spec_num_bits(),
{
    lemma_get(num, set, idx, r);
    set.lemma_num_bits();
    lemma_positions(set.bits(), set.spec_num_bits());
}

/// The positions of set bits are those, in order.
proof fn lemma_positions(bits: Seq<bool>, n: nat)
    requires
        n <= bits.len(),
        n <= usize::MAX + 1,
    ensures
        ({
            let ps = bitset::set_positions(bits, n);
            &&& forall|i: int, j: int| 0 <= i < j < ps.len() ==> ps[i] < ps[j]
            &&& forall|i: int| 0 <= i < ps.len() ==> #[trigger] ps[i] < n
            &&& forall|p: usize|
                p < n ==> (#[trigger] ps.contains(p) <==> bits[p as int])
        }),
    decreases n,
{
    let ps = bitset::set_positions(bits, n);
    if n > 0 {
        let init = bitset::set_positions(bits, (n - 1) as nat);
        lemma_positions(bits, (n - 1) as nat);
        if bits[n - 1] {
            assert(ps[ps.len() - 1] == n - 1);
            assert forall|i: int| 0 <= i < ps.len() implies #[trigger] ps[i] < n by {
                if i < init.len() {
                    assert(ps[i] == init[i]);
                }
            }
            assert forall|i: int, j: int| 0 <= i < j < ps.len() implies ps[i] < ps[j] by {
                assert(ps[i] == init[i]);
                if j < init.len() {
                    assert(ps[j] == init[j]);
                }
            }
            assert forall|p: usize| p < n implies (#[trigger] ps.contains(p) <==> bits[p as int]) by {
                if p < n - 1 {
                    assert(init.contains(p) <==> bits[p as int]);
                    if init.contains(p) {
                        let k = choose|k: int| 0 <= k < init.len() && init[k] == p;
                        assert(ps[k] == p);
                    }
                    if ps.contains(p) {
                        let k = choose|k: int| 0 <= k < ps.len() && ps[k] == p;
                        assert(init[k] == p);
                    }
                }
            }
        } else {
            assert forall|p: usize| p < n implies (#[trigger] ps.contains(p) <==> bits[p as int]) by {
                if p == n - 1 {
                    if init.contains(p) {
                        let k = choose|k: int| 0 <= k < init.len() && init[k] == p;
                        assert(init[k] < n - 1);
                    }
                }
            }
        }
    }
}

/// Whether every member of a row is one of the set, and the other way round.
pub open spec fn row_changed<T: Into<usize> + Copy>(
    a: &BitMatrix<T>,
    b: &BitMatrix<T>,
    row: int,
) -> bool {
    exists|i: int|
        0 <= i < a.spec_num_bits() && #[trigger] a.row_bits(row)[i] != b.row_bits(row)[i]
}

/// Asking for a member of a row looks at its bit.
proof fn lemma_matrix_get<T: Into<usize> + Copy>(
    num: spec_fn(T) -> usize,
    m: &BitMatrix<T>,
    row: usize,
    idx: T,
    r: bool,
)
    requires
        numbered(num),
        call_ensures(BitMatrix::<T>::get, (m, row, idx), r),
    ensures
        num(idx) < m.spec_num_bits(),
        r == m.row_bits(row as int)[num(idx) as int],
{
    let i = choose|i: usize| #[trigger]
        bitset::numbers(idx, i) && i < m.spec_num_bits() && r == m.row_bits(row as int)[i as int];
    assert(i == num(idx));
}

/// A new matrix has empty rows. A member inserted into a row is one of that row from then on, and
/// everything else stays what it was. A row taken out has the members that the matrix says.
pub proof fn law_matrix_membership<T: Into<usize> + Copy>(
    num: spec_fn(T) -> usize,
    rows: usize,
    n: usize,
    fresh: &BitMatrix<T>,
    before: &BitMatrix<T>,
    a: &mut BitMatrix<T>,
    row: usize,
    idx: T,
    added: bool,
    after: &BitMatrix<T>,
    at: usize,
    other: T,
    in_fresh: bool,
    was_idx: bool,
    was: bool,
    is: bool,
    taken: BitRow<T>,
    taken_ref: &BitRow<T>,
    in_taken: bool,
)
    requires
        numbered(num),
        call_ensures(BitMatrix::<T>::new, (rows, n), *fresh),
        at < rows,
        call_ensures(BitMatrix::<T>::get, (fresh, at, other), in_fresh),
        before.has_row(at as int),
        call_ensures(BitMatrix::<T>::get, (before, row, idx), was_idx),
        call_ensures(BitMatrix::<T>::get, (before, at, other), was),
        *a == *before,
        call_ensures(BitMatrix::<T>::insert, (a, row, idx), added),
        *after == *final(a),
        call_ensures(BitMatrix::<T>::get, (after, at, other), is),
        call_ensures(BitMatrix::<T>::row, (after, at), taken),
        *taken_ref == taken,
        call_ensures(BitRow::<T>::get, (taken_ref, other), in_taken),
    ensures
        !in_fresh,
        added == !was_idx,
        is <==> was || (at == row && num(other) == num(idx)),
        in_taken == is,
{
    lemma_matrix_get(num, fresh, at, other, in_fresh);
    lemma_matrix_get(num, before, row, idx, was_idx);
    lemma_matrix_get(num, before, at, other, was);
    lemma_matrix_get(num, after, at, other, is);
    let i = choose|i: usize| #[trigger]
        bitset::numbers(idx, i) && i < before.spec_num_bits() && after.row_bits(row as int)
            == before.row_bits(row as int).update(i as int, true) && added == !before.row_bits(
            row as int,
        )[i as int];
    assert(i == num(idx));
    if at != row {
        assert(after.row_bits(at as int) == before.row_bits(at as int));
    }
    let j = choose|j: usize| #[trigger]
        bitset::numbers(other, j) && j < taken.spec_num_bits() && in_taken
            == taken.bits()[j as int];
    assert(j == num(other));
}

/// A filled row has all members, a copied one those of the set, and an intersected one the common
/// ones. Other rows stay as they were.
pub proof fn law_rows_at_once<T: Into<usize> + Copy>(
    num: spec_fn(T) -> usize,
    before: &BitMatrix<T>,
    set: &BitSet<T>,
    row: usize,
    a: &mut BitMatrix<T>,
    b: &mut BitMatrix<T>,
    c: &mut BitMatrix<T>,
    filled: &BitMatrix<T>,
    copied: &BitMatrix<T>,
    common: &BitMatrix<T>,
    r: bool,
    at: usize,
    idx: T,
    in_set: bool,
    was: bool,
    in_filled: bool,
    in_copied: bool,
    in_common: bool,
)
    requires
        numbered(num),
        before.has_row(at as int),
        before.has_row(row as int),
        before.spec_num_bits() == set.spec_num_bits(),
        *a == *before,
        *b == *before,
        *c == *before,
        call_ensures(BitMatrix::<T>::insert_all_row, (a, row), ()),
        call_ensures(BitMatrix::<T>::copy_row_from, (b, row, set), ()),
        call_ensures(BitMatrix::<T>::intersect_row_with, (c, row, set), r),
        *filled == *final(a),
        *copied == *final(b),
        *common == *final(c),
        call_ensures(BitSet::<T>::get, (set, idx), in_set),
        call_ensures(BitMatrix::<T>::get, (before, at, idx), was),
        call_ensures(BitMatrix::<T>::get, (filled, at, idx), in_filled),
        call_ensures(BitMatrix::<T>::get, (copied, at, idx), in_copied),
        call_ensures(BitMatrix::<T>::get, (common, at, idx), in_common),
    ensures
        in_filled <==> was || at == row,
        in_copied == if at == row {
            in_set
        } else {
            was
        },
        in_common <==> was && (at == row ==> in_set),
        r <==> row_changed(before, common, row as int),
{
    lemma_get(num, set, idx, in_set);
    lemma_matrix_get(num, before, at, idx, was);
    lemma_matrix_get(num, filled, at, idx, in_filled);
    lemma_matrix_get(num, copied, at, idx, in_copied);
    lemma_matrix_get(num, common, at, idx, in_common);
    if at != row {
        assert(filled.row_bits(at as int) == before.row_bits(at as int));
        assert(copied.row_bits(at as int) == before.row_bits(at as int));
        assert(common.row_bits(at as int) == before.row_bits(at as int));
    }
    if !row_changed(before, common, row as int) {
        assert(before.row_bits(row as int) =~= common.row_bits(row as int));
    }
}

/// What a set has after it was combined with a row: the members of both, those that the row does
/// not have, or those of the row. Whether it equals the row says whether the members are the same.
pub proof fn law_sets_and_rows<T: Into<usize> + Copy>(
    num: spec_fn(T) -> usize,
    before: &BitSet<T>,
    row: BitRow<'_, T>,
    row_ref: &BitRow<'_, T>,
    a: &mut BitSet<T>,
    b: &mut BitSet<T>,
    c: &mut BitSet<T>,
    joined: &BitSet<T>,
    rest: &BitSet<T>,
    copied: &BitSet<T>,
    r_joined: bool,
    r_rest: bool,
    same: bool,
    members: Vec<usize>,
    idx: T,
    in_before: bool,
    in_row: bool,
    in_joined: bool,
    in_rest: bool,
    in_copied: bool,
)
    requires
        numbered(num),
        before.spec_num_bits() == row.spec_num_bits(),
        *row_ref == row,
        *a == *before,
        *b == *before,
        *c == *before,
        call_ensures(BitSet::<T>::union_with_row, (a, row), r_joined),
        call_ensures(BitSet::<T>::difference_with_row, (b, row), r_rest),
        call_ensures(BitSet::<T>::copy_from_row, (c, row), ()),
        *joined == *final(a),
        *rest == *final(b),
        *copied == *final(c),
        call_ensures(BitSet::<T>::equals_row, (before, row), same),
        call_ensures(BitRow::<T>::iter_set_bits, (row_ref,), members),
        call_ensures(BitSet::<T>::get, (before, idx), in_before),
        call_ensures(BitRow::<T>::get, (row_ref, idx), in_row),
        call_ensures(BitSet::<T>::get, (joined, idx), in_joined),
        call_ensures(BitSet::<T>::get, (rest, idx), in_rest),
        call_ensures(BitSet::<T>::get, (copied, idx), in_copied),
    ensures
        in_joined <==> in_before || in_row,
        in_rest <==> in_before && !in_row,
        in_copied == in_row,
        r_joined <==> changed(before, joined),
        r_rest <==> changed(before, rest),
        same ==> in_before == in_row,
        !same ==> changed(before, copied),
        members@.contains(num(idx)) <==> in_row,
        forall|i: int, j: int| 0 <= i < j < members@.len() ==> members@[i] < members@[j],
{
    lemma_get(num, before, idx, in_before);
    lemma_get(num, joined, idx, in_joined);
    lemma_get(num, rest, idx, in_rest);
    lemma_get(num, copied, idx, in_copied);
    let i = choose|i: usize| #[trigger]
        bitset::numbers(idx, i) && i < row.spec_num_bits() && in_row == row.bits()[i as int];
    assert(i == num(idx));
    lemma_changed(before, joined);
    lemma_changed(before, rest);
    if same {
        assert(before.bits() == row.bits());
    } else {
        let k = choose|k: int|
            0 <= k < before.spec_num_bits() && #[trigger] before.bits()[k] != row.bits()[k];
        assert(before.bits()[k] != copied.bits()[k]);
    }
    before.lemma_num_bits();
    lemma_positions(row.bits(), row.spec_num_bits());
}

} // verus!
