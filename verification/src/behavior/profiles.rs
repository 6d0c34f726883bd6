//! What a type profile says after what was observed.

use vstd::prelude::*;
use vstd::std_specs::cmp::PartialEqSpec;

use crate::distribution;
use crate::distribution::{
    Coverage, DistModel, Distribution, DistributionKind, DistributionSummary, StableBucket, Tail,
};

verus! {

/// How often the item in bucket `i` was seen.
pub open spec fn count_in<T: Copy + PartialEq + Default, const N: usize>(
    d: Distribution<T, N>,
    i: int,
) -> int {
    if i == 0 {
        d.primary_count as int
    } else if d.tail is Some {
        d.tail.unwrap().counts@[i] as int
    } else {
        0
    }
}

/// What is in bucket `i`.
pub open spec fn item_in<T: Copy + PartialEq + Default, const N: usize>(
    d: Distribution<T, N>,
    i: int,
) -> T {
    if i == 0 {
        d.primary
    } else {
        d.tail.unwrap().buckets@[i]
    }
}

/// One more, up to 255.
pub open spec fn one_more(count: int) -> int {
    if count < 255 {
        count + 1
    } else {
        count
    }
}

/// Looking into a bucket shows its item and its count. A bucket without a count holds a default.
pub proof fn law_looking_into_buckets<T: Copy + PartialEq + Default, const N: usize>(
    d: &Distribution<T, N>,
    idx: usize,
    item: T,
    count: u8,
    other: u8,
    items: [T; N],
    counts: [u8; N],
    size: usize,
)
    requires
        d.wf(),
        idx < N,
        call_ensures(Distribution::<T, N>::bucket, (d, idx), item),
        call_ensures(Distribution::<T, N>::count, (d, idx), count),
        call_ensures(Distribution::<T, N>::other, (d,), other),
        call_ensures(Distribution::<T, N>::buckets, (d,), items),
        call_ensures(Distribution::<T, N>::counts, (d,), counts),
        call_ensures(Distribution::<T, N>::heap_size, (d,), size),
    ensures
        count == count_in(*d, idx as int),
        counts@[idx as int] == count,
        count > 0 ==> item == item_in(*d, idx as int) && items@[idx as int] == item,
        count == 0 ==> distribution::is_default(item) && distribution::is_default(
            items@[idx as int],
        ),
        other == d.other,
        size == if d.tail is Some {
            vstd::layout::size_of::<Tail<T, N>>()
        } else {
            0
        },
{
    assert(d@.counts[idx as int] == d.count_at(idx as int));
    let shown = d@.items[idx as int];
    assert(match shown {
        Some(it) => items@[idx as int] == it,
        None => distribution::is_default(items@[idx as int]),
    });
}

/// There is no count beyond the buckets, and a new profile has none at all.
pub proof fn law_new_profile<T: Copy + PartialEq + Default, const N: usize>(
    d: &Distribution<T, N>,
    idx: usize,
    fresh: &Distribution<T, N>,
    beyond: u8,
    count: u8,
    other: u8,
    any: usize,
)
    requires
        d.wf(),
        idx >= N,
        call_ensures(Distribution::<T, N>::count, (d, idx), beyond),
        call_ensures(Distribution::<T, N>::new, (), *fresh),
        call_ensures(Distribution::<T, N>::count, (fresh, any), count),
        call_ensures(Distribution::<T, N>::other, (fresh,), other),
    ensures
        beyond == 0,
        count == 0,
        other == 0,
        fresh.tail is None,
{
}

/// Observing an item counts it in the first bucket, `k`, that is empty or has it, and as another
/// one if there is none. The bucket with the largest count, `f`, then trades places with the first
/// one; of several such buckets, that is the last.
pub proof fn law_observation<T: Copy + PartialEq + Default, const N: usize>(
    before: Distribution<T, N>,
    d: &mut Distribution<T, N>,
    item: T,
    k: int,
    f: int,
    i: int,
)
    requires
        before.wf(),
        T::obeys_eq_spec(),
        *d == before,
        call_ensures(Distribution::<T, N>::observe, (d, item), ()),
        0 <= k <= N,
        forall|j: int|
            0 <= j < k ==> #[trigger] count_in(before, j) > 0 && !item_in(before, j).eq_spec(&item),
        k < N ==> count_in(before, k) == 0 || item_in(before, k).eq_spec(&item),
        // The bucket that is in front afterwards.
        k < N ==> 0 <= f < N,
        forall|j: int|
            k < N && 0 <= j < N ==> (if j == k {
                one_more(count_in(before, j))
            } else {
                #[trigger] count_in(before, j)
            }) <= (if f == k {
                one_more(count_in(before, f))
            } else {
                count_in(before, f)
            }),
        forall|j: int|
            k < N && f < j < N ==> (if j == k {
                one_more(count_in(before, j))
            } else {
                #[trigger] count_in(before, j)
            }) < (if f == k {
                one_more(count_in(before, f))
            } else {
                count_in(before, f)
            }),
        0 <= i < N,
    ensures
        k == N ==> {
            &&& final(d).other == one_more(before.other as int)
            &&& count_in(*final(d), i) == count_in(before, i)
            &&& count_in(before, i) > 0 ==> item_in(*final(d), i) == item_in(before, i)
        },
        k < N ==> {
            let from = if i == 0 {
                f
            } else if i == f {
                0
            } else {
                i
            };
            &&& final(d).other == before.other
            &&& count_in(*final(d), i) == if from == k {
                one_more(count_in(before, from))
            } else {
                count_in(before, from)
            }
            &&& from == k ==> item_in(*final(d), i) == item
            &&& from != k && count_in(before, from) > 0 ==> item_in(*final(d), i) == item_in(
                before,
                from,
            )
        },
{
    let m = before@;
    let after = final(d)@;
    assert(after == distribution::observed(m, item));
    assert forall|j: int| 0 <= j < N implies m.counts[j] == #[trigger] count_in(before, j) && (
    m.counts[j] > 0 ==> m.items[j] == Some(item_in(before, j))) by {
        assert(m.counts[j] == before.count_at(j));
    }
    lemma_first_slot(before, item, 0, k);
    assert(after.counts[i] == final(d).count_at(i));
    assert(after.counts[i] > 0 ==> after.items[i] == Some(item_in(*final(d), i)));
    if k < N {
        let c = distribution::counted(DistModel { boxed: true, ..m }, k, item);
        assert forall|j: int| 0 <= j < N implies #[trigger] c.counts[j] == if j == k {
            one_more(count_in(before, j))
        } else {
            count_in(before, j)
        } by {}
        assert(distribution::counted(m, k, item).counts == c.counts);
        distribution::lemma_last_max(c.counts);
        let g = distribution::last_max(c.counts);
        if g < f {
            assert(c.counts[f] <= c.counts[g]);
            assert(c.counts[g] <= c.counts[f]);
        } else if f < g {
            assert(c.counts[g] < c.counts[f]);
        }
        assert(g == f);
    }
}

/// The first bucket that takes an item.
proof fn lemma_first_slot<T: Copy + PartialEq + Default, const N: usize>(
    d: Distribution<T, N>,
    item: T,
    from: int,
    k: int,
)
    requires
        d.wf(),
        0 <= from <= k <= N,
        forall|j: int|
            0 <= j < k ==> #[trigger] count_in(d, j) > 0 && !item_in(d, j).eq_spec(&item),
        k < N ==> count_in(d, k) == 0 || item_in(d, k).eq_spec(&item),
    ensures
        distribution::slot_from(d@, item, from) == if k < N {
            Some(k)
        } else {
            None
        },
        from < k ==> !distribution::takes(d@, from, item),
        k < N && from == k ==> distribution::takes(d@, k, item),
    decreases k - from,
{
    if from < N {
        assert(d@.counts[from] == d.count_at(from));
        assert(d@.counts[from] == count_in(d, from));
        if from < k {
            lemma_first_slot(d, item, from + 1, k);
        }
    }
}

/// Recording an item without counting it: it stays in the first bucket, `k`, that `same` finds it
/// in, or goes to the first one that is empty, or is counted as another one. Nothing moves.
pub proof fn law_stable_observation<
    T: Copy + PartialEq + Default,
    const N: usize,
    F: Fn(T, T) -> bool,
>(
    before: Distribution<T, N>,
    d: &mut Distribution<T, N>,
    item: T,
    matches: F,
    same: spec_fn(T, T) -> bool,
    r: StableBucket,
    k: int,
    i: int,
)
    requires
        before.wf(),
        *d == before,
        call_ensures(Distribution::<T, N>::observe_stable::<F>, (d, item, matches), r),
        forall|a: T, b: T, x: bool| #[trigger]
            call_ensures(matches, (a, b), x) ==> x == same(a, b),
        0 <= k <= N,
        forall|j: int|
            0 <= j < k ==> #[trigger] count_in(before, j) > 0 && !same(item_in(before, j), item),
        k < N ==> count_in(before, k) == 0 || same(item_in(before, k), item),
        0 <= i < N,
    ensures
        k < N && count_in(before, k) > 0 ==> r == StableBucket::Existing(k as usize),
        k < N && count_in(before, k) == 0 ==> r == StableBucket::Inserted(k as usize),
        k == N ==> r == StableBucket::Full,
        final(d).other == if k == N {
            one_more(before.other as int)
        } else {
            before.other as int
        },
        count_in(*final(d), i) == if i == k && count_in(before, k) == 0 {
            1
        } else {
            count_in(before, i)
        },
        i == k && count_in(before, k) == 0 ==> item_in(*final(d), i) == item,
        count_in(before, i) > 0 ==> item_in(*final(d), i) == item_in(before, i),
{
    let m = before@;
    let after = final(d)@;
    assert forall|j: int| 0 <= j < N implies m.counts[j] == #[trigger] count_in(before, j) && (
    m.counts[j] > 0 ==> m.items[j] == Some(item_in(before, j))) && (m.counts[j] == 0
        ==> m.items[j] is None) by {
        assert(m.counts[j] == before.count_at(j));
    }
    assert(after.counts[i] == final(d).count_at(i));
    assert(after.counts[i] > 0 ==> after.items[i] == Some(item_in(*final(d), i)));
    match r {
        StableBucket::Existing(at) => {
            if at < k {
                assert(count_in(before, at as int) > 0);
            } else if k < at {
                assert(m.items[k] is Some);
                assert(count_in(before, k) == m.counts[k]);
            }
        },
        StableBucket::Inserted(at) => {
            if at < k {
                assert(count_in(before, at as int) > 0);
            } else if k < at {
                assert(m.items[k] is Some);
                assert(count_in(before, k) == m.counts[k]);
            }
        },
        StableBucket::Full => {
            if k < N {
                assert(m.items[k] is Some);
                assert(count_in(before, k) == m.counts[k]);
            }
        },
    }
}

/// Keeping the first bucket alone forgets all others and what fit into none.
pub proof fn law_keeping_the_first<T: Copy + PartialEq + Default, const N: usize>(
    before: Distribution<T, N>,
    d: &mut Distribution<T, N>,
    i: int,
)
    requires
        before.wf(),
        *d == before,
        call_ensures(Distribution::<T, N>::retain_primary, (d,), ()),
        0 <= i < N,
    ensures
        final(d).other == 0,
        final(d).tail is None,
        count_in(*final(d), i) == if i == 0 {
            count_in(before, 0)
        } else {
            0
        },
        i == 0 && count_in(before, 0) > 0 ==> item_in(*final(d), 0) == item_in(before, 0),
{
    let after = final(d)@;
    assert(after.counts[i] == final(d).count_at(i));
    assert(before@.counts[i] == before.count_at(i));
    assert(before@.items[0] == after.items[0]);
    assert(after.counts[0] == final(d).count_at(0));
    assert(before@.counts[0] == before.count_at(0));
}

/// The sum of some counts.
pub open spec fn sum_of(counts: Seq<u8>) -> int
    decreases counts.len(),
{
    if counts.len() == 0 {
        0
    } else {
        counts[0] + sum_of(counts.skip(1))
    }
}

proof fn lemma_sum_of(counts: Seq<u8>)
    ensures
        sum_of(counts) == distribution::total(counts),
    decreases counts.len(),
{
    if counts.len() > 0 {
        let rest = counts.skip(1);
        let init = counts.drop_last();
        if rest.len() == 0 {
            assert(sum_of(rest) == 0);
            assert(distribution::total(init) == 0);
        } else {
            lemma_sum_of(rest);
            lemma_sum_of(init);
            assert(rest.drop_last() =~= init.skip(1));
            lemma_sum_of(rest.drop_last());
            assert(rest.last() == counts.last());
            assert(init[0] == counts[0]);
        }
    }
}

/// How many of some counts are not zero.
pub open spec fn how_many(counts: Seq<u8>) -> int
    decreases counts.len(),
{
    if counts.len() == 0 {
        0
    } else {
        how_many(counts.skip(1)) + if counts[0] == 0 {
            0int
        } else {
            1
        }
    }
}

proof fn lemma_how_many(counts: Seq<u8>)
    ensures
        how_many(counts) == distribution::used(counts),
    decreases counts.len(),
{
    if counts.len() > 0 {
        let rest = counts.skip(1);
        let init = counts.drop_last();
        if rest.len() == 0 {
            assert(how_many(rest) == 0);
            assert(distribution::used(init) == 0);
        } else {
            lemma_how_many(rest);
            lemma_how_many(init);
            assert(rest.drop_last() =~= init.skip(1));
            lemma_how_many(rest.drop_last());
            assert(rest.last() == counts.last());
            assert(init[0] == counts[0]);
        }
    }
}

/// What was observed is what the buckets count and what fit into none. A bucket is used if it has
/// a count, and the items of the profile are those of its used buckets, in order.
pub proof fn law_totals<T: Copy + PartialEq + Default, const N: usize>(
    d: &Distribution<T, N>,
    counts: [u8; N],
    observed: usize,
    used: usize,
    items: Vec<T>,
)
    requires
        d.wf(),
        call_ensures(Distribution::<T, N>::counts, (d,), counts),
        call_ensures(Distribution::<T, N>::num_observed, (d,), observed),
        call_ensures(Distribution::<T, N>::num_buckets_used, (d,), used),
        call_ensures(Distribution::<T, N>::each_item, (d,), items),
    ensures
        observed == sum_of(counts@) + d.other,
        used == how_many(counts@),
        items@.len() == used,
        forall|i: int|
            0 <= i < N && #[trigger] count_in(*d, i) > 0 ==> items@.contains(item_in(*d, i)),
        forall|x: int|
            0 <= x < items@.len() ==> exists|i: int|
                0 <= i < N && count_in(*d, i) > 0 && #[trigger] item_in(*d, i)
                    == #[trigger] items@[x],
        items@ == items_from(*d, 0),
{
    lemma_sum_of(counts@);
    lemma_how_many(counts@);
    lemma_occupied(d@, N as int);
    assert(d@.items.take(N as int) =~= d@.items);
    assert(d@.counts.take(N as int) =~= d@.counts);
    assert forall|i: int| 0 <= i < N && #[trigger] count_in(*d, i) > 0 implies items@.contains(
        item_in(*d, i),
    ) by {
        assert(d@.counts[i] == d.count_at(i));
        assert(d@.items[i] == Some(item_in(*d, i)));
    }
    assert forall|x: int| 0 <= x < items@.len() implies exists|i: int|
        0 <= i < N && count_in(*d, i) > 0 && #[trigger] item_in(*d, i) == #[trigger] items@[x] by {
        let i = choose|i: int| 0 <= i < N && #[trigger] d@.items[i] == Some(items@[x]);
        assert(d@.counts[i] == d.count_at(i));
        assert(count_in(*d, i) > 0 && item_in(*d, i) == items@[x]);
    }
    lemma_items_from(*d, 0);
    assert(d@.items.skip(0) =~= d@.items);
}

/// The items in the buckets from `i` on that have a count, in order.
pub open spec fn items_from<T: Copy + PartialEq + Default, const N: usize>(
    d: Distribution<T, N>,
    i: int,
) -> Seq<T>
    decreases N - i,
{
    if i >= N {
        Seq::empty()
    } else if count_in(d, i) > 0 {
        seq![item_in(d, i)] + items_from(d, i + 1)
    } else {
        items_from(d, i + 1)
    }
}

proof fn lemma_items_from<T: Copy + PartialEq + Default, const N: usize>(
    d: Distribution<T, N>,
    i: int,
)
    requires
        0 <= i <= N,
    ensures
        items_from(d, i) == distribution::occupied(d@.items.skip(i)),
    decreases N - i,
{
    let rest = d@.items.skip(i);
    if i < N {
        lemma_items_from(d, i + 1);
        assert(d@.counts[i] == d.count_at(i));
        assert(rest.skip(1) =~= d@.items.skip(i + 1));
        lemma_occupied_front(rest);
    }
}

proof fn lemma_occupied_front<T>(items: Seq<Option<T>>)
    requires
        items.len() > 0,
    ensures
        distribution::occupied(items) == (match items[0] {
            Some(item) => seq![item],
            None => Seq::empty(),
        }) + distribution::occupied(items.skip(1)),
    decreases items.len(),
{
    let rest = items.skip(1);
    let init = items.drop_last();
    let first = match items[0] {
        Some(item) => seq![item],
        None => Seq::empty(),
    };
    if rest.len() == 0 {
        assert(distribution::occupied(init) =~= Seq::empty());
        assert(distribution::occupied(rest) =~= Seq::empty());
        assert(distribution::occupied(items) =~= first + distribution::occupied(rest));
    } else {
        lemma_occupied_front(init);
        assert(init.skip(1) =~= rest.drop_last());
        assert(init[0] == items[0]);
        assert(rest.last() == items.last());
        assert(distribution::occupied(items) =~= first + distribution::occupied(rest));
    }
}

proof fn lemma_occupied<T>(m: DistModel<T>, n: int)
    requires
        m.items.len() == m.counts.len(),
        0 <= n <= m.items.len(),
        forall|i: int| 0 <= i < m.items.len()
            ==> (#[trigger] m.items[i] is Some <==> m.counts[i] > 0),
    ensures
        ({
            let found = distribution::occupied(m.items.take(n));
            &&& found.len() == distribution::used(m.counts.take(n))
            &&& forall|i: int|
                0 <= i < n ==> (#[trigger] m.items[i] matches Some(item) ==> found.contains(item))
            &&& forall|x: int|
                0 <= x < found.len() ==> exists|i: int|
                    0 <= i < n && #[trigger] m.items[i] == Some(#[trigger] found[x])
        }),
    decreases n,
{
    if n > 0 {
        lemma_occupied(m, n - 1);
        let items = m.items.take(n);
        let init = m.items.take(n - 1);
        assert(items.drop_last() =~= init);
        assert(m.counts.take(n).drop_last() =~= m.counts.take(n - 1));
        let before = distribution::occupied(init);
        let found = distribution::occupied(items);
        assert(items.last() == m.items[n - 1]);
        assert forall|i: int| 0 <= i < n implies (#[trigger] m.items[i] matches Some(item)
            ==> found.contains(item)) by {
            if let Some(item) = m.items[i] {
                if i < n - 1 {
                    let x = choose|x: int| 0 <= x < before.len() && before[x] == item;
                    assert(found[x] == item);
                } else {
                    assert(found[before.len() as int] == item);
                }
            }
        }
        assert forall|x: int| 0 <= x < found.len() implies exists|i: int|
            0 <= i < n && #[trigger] m.items[i] == Some(#[trigger] found[x]) by {
            if x < before.len() {
                assert(found[x] == before[x]);
                let i = choose|i: int| 0 <= i < n - 1 && #[trigger] m.items[i] == Some(before[x]);
                assert(m.items[i] == Some(found[x]));
            } else {
                assert(m.items[n - 1] == Some(found[x]));
            }
        }
    } else {
        assert(m.items.take(0).len() == 0);
        assert(m.counts.take(0).len() == 0);
    }
}

/// Each item is replaced by what `make` makes of it, in its bucket and with its count.
pub proof fn law_items_are_replaced<
    T: Copy + PartialEq + Default,
    const N: usize,
    F: Fn(T) -> T,
>(before: Distribution<T, N>, d: &mut Distribution<T, N>, f: F, make: spec_fn(T) -> T, i: int)
    requires
        before.wf(),
        *d == before,
        call_ensures(Distribution::<T, N>::each_item_mut::<F>, (d, f), ()),
        forall|a: T, b: T| #[trigger] call_ensures(f, (a,), b) ==> b == make(a),
        0 <= i < N,
    ensures
        count_in(*final(d), i) == count_in(before, i),
        count_in(before, i) > 0 ==> item_in(*final(d), i) == make(item_in(before, i)),
        final(d).other == before.other,
{
    let after = final(d)@;
    assert(after.counts[i] == final(d).count_at(i));
    assert(before@.counts[i] == before.count_at(i));
    assert(match before@.items[i] {
        Some(item) => after.items[i] matches Some(made) && call_ensures(f, (item,), made),
        None => after.items[i] is None,
    });
}

/// How varied a profile is: empty, with one item, with more, or with some that fit into no bucket.
/// It is skewed if the first item makes up three quarters of what was seen or more.
pub proof fn law_summary<T: Copy + PartialEq + Default, const N: usize>(
    d: &Distribution<T, N>,
    s: &DistributionSummary<T, N>,
    first: u8,
    second: u8,
    observed: usize,
    seen: u32,
    mono: bool,
    poly: bool,
    skewed_poly: bool,
    mega: bool,
    skewed_mega: bool,
)
    requires
        d.wf(),
        call_ensures(DistributionSummary::<T, N>::new, (d,), *s),
        call_ensures(Distribution::<T, N>::count, (d, 0), first),
        call_ensures(Distribution::<T, N>::count, (d, 1), second),
        call_ensures(Distribution::<T, N>::num_observed, (d,), observed),
        call_ensures(DistributionSummary::<T, N>::num_seen, (s,), seen),
        call_ensures(DistributionSummary::<T, N>::is_monomorphic, (s,), mono),
        call_ensures(DistributionSummary::<T, N>::is_polymorphic, (s,), poly),
        call_ensures(DistributionSummary::<T, N>::is_skewed_polymorphic, (s,), skewed_poly),
        call_ensures(DistributionSummary::<T, N>::is_megamorphic, (s,), mega),
        call_ensures(DistributionSummary::<T, N>::is_skewed_megamorphic, (s,), skewed_mega),
    ensures
        seen == observed,
        s.other == d.other,
        s.kind == DistributionKind::Empty <==> d.other == 0 && first == 0,
        mono <==> d.other == 0 && first > 0 && second == 0,
        poly <==> d.other == 0 && first > 0 && second > 0 && first * 4 < observed * 3,
        skewed_poly <==> d.other == 0 && first > 0 && second > 0 && first * 4 >= observed * 3,
        mega <==> d.other > 0 && first * 4 < observed * 3,
        skewed_mega <==> d.other > 0 && first * 4 >= observed * 3,
        mono <==> s.kind == DistributionKind::Monomorphic,
{
}

/// A summary has the buckets of the profile.
pub proof fn law_summary_buckets<T: Copy + PartialEq + Default, const N: usize>(
    d: &Distribution<T, N>,
    s: &DistributionSummary<T, N>,
    idx: usize,
    item: T,
    count: u8,
    s_item: T,
    s_count: u8,
    s_items: &[T],
)
    requires
        d.wf(),
        idx < N,
        call_ensures(DistributionSummary::<T, N>::new, (d,), *s),
        call_ensures(Distribution::<T, N>::bucket, (d, idx), item),
        call_ensures(Distribution::<T, N>::count, (d, idx), count),
        call_ensures(DistributionSummary::<T, N>::bucket, (s, idx), s_item),
        call_ensures(DistributionSummary::<T, N>::bucket_count, (s, idx), s_count),
        call_ensures(DistributionSummary::<T, N>::buckets, (s,), s_items),
    ensures
        s_count == count,
        count > 0 ==> s_item == item,
        count == 0 ==> distribution::is_default(s_item),
        s_items@.len() == N,
        s_items@[idx as int] == s_item,
{
    let shown = d@.items[idx as int];
    assert(d@.counts[idx as int] == d.count_at(idx as int));
    assert(match shown {
        Some(it) => s.buckets@[idx as int] == it,
        None => distribution::is_default(s.buckets@[idx as int]),
    });
}

/// Summaries made up: of nothing, of too much, of one item, and of several that count as one.
pub proof fn law_made_up_summaries<T: Copy + PartialEq + Default, const N: usize>(
    empty: DistributionSummary<T, N>,
    mega: DistributionSummary<T, N>,
    item: T,
    one: DistributionSummary<T, N>,
    items: &[T],
    several: DistributionSummary<T, N>,
    i: int,
)
    requires
        call_ensures(DistributionSummary::<T, N>::empty, (), empty),
        call_ensures(DistributionSummary::<T, N>::megamorphic, (), mega),
        N > 0,
        call_ensures(DistributionSummary::<T, N>::monomorphic, (item,), one),
        items@.len() > 0,
        call_ensures(DistributionSummary::<T, N>::monomorphic_variants, (items,), several),
        0 <= i < N,
    ensures
        empty.kind == DistributionKind::Empty && empty.other == 0 && empty.counts@[i] == 0,
        mega.kind == DistributionKind::Megamorphic && mega.other == 255 && mega.counts@[i] == 0,
        one.kind == DistributionKind::Monomorphic && one.other == 0,
        one.buckets@[0] == item,
        one.counts@[i] == if i == 0 {
            1int
        } else {
            0
        },
        several.kind == DistributionKind::Monomorphic && several.other == 0,
        several.counts@[i] == if i < items@.len() {
            1int
        } else {
            0
        },
        i < items@.len() ==> several.buckets@[i] == items@[i],
{
}

/// What a choice of buckets covers: the sum of their counts, out of all that was seen.
pub proof fn law_coverage<T: Copy + PartialEq + Default, const N: usize, F: Fn(usize, T) -> bool>(
    s: &DistributionSummary<T, N>,
    keep: F,
    kept: spec_fn(usize, T) -> bool,
    r: Coverage,
    seen: u32,
    chosen: Seq<u8>,
)
    requires
        call_ensures(DistributionSummary::<T, N>::coverage::<F>, (s, keep), r),
        call_ensures(DistributionSummary::<T, N>::num_seen, (s,), seen),
        forall|i: usize, item: T, x: bool| #[trigger]
            call_ensures(keep, (i, item), x) ==> x == kept(i, item),
        chosen.len() == N,
        forall|i: int|
            0 <= i < N ==> #[trigger] chosen[i] == if s.counts@[i] > 0 && kept(
                i as usize,
                s.buckets@[i],
            ) {
                s.counts@[i]
            } else {
                0
            },
    ensures
        r.num_seen == seen,
        seen == sum_of(s.counts@) + s.other,
        r.covered == sum_of(chosen),
{
    lemma_sum_of(s.counts@);
    lemma_sum_of(chosen);
    let flags = choose|flags: Seq<bool>| #[trigger]
        distribution::keeps(s.buckets@, s.counts@, keep, flags) && r.covered
            == distribution::kept_total(s.counts@, flags);
    assert forall|i: int| 0 <= i < N implies #[trigger] chosen[i] == if flags[i] {
        s.counts@[i]
    } else {
        0
    } by {
        if s.counts@[i] > 0 {
            assert(call_ensures(keep, (i as usize, s.buckets@[i]), flags[i]));
        }
    }
    lemma_kept_total(s.counts@, flags, chosen);
}

proof fn lemma_kept_total(counts: Seq<u8>, flags: Seq<bool>, chosen: Seq<u8>)
    requires
        counts.len() == flags.len() == chosen.len(),
        forall|i: int|
            0 <= i < counts.len() ==> #[trigger] chosen[i] == if flags[i] {
                counts[i]
            } else {
                0
            },
    ensures
        distribution::kept_total(counts, flags) == distribution::total(chosen),
    decreases counts.len(),
{
    if counts.len() > 0 {
        let c = counts.drop_last();
        let f = flags.drop_last();
        let d = chosen.drop_last();
        assert forall|i: int| 0 <= i < c.len() implies #[trigger] d[i] == if f[i] {
            c[i]
        } else {
            0
        } by {
            assert(d[i] == chosen[i]);
        }
        lemma_kept_total(c, f, d);
        assert(chosen[chosen.len() - 1] == chosen.last());
    }
}

} // verus!
