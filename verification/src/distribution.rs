//! Type frequency distribution tracker.

use vstd::prelude::*;
use vstd::std_specs::cmp::PartialEqSpec;

verus! {

/// How often something was observed, up to a limit.
pub type NumProfiles = u8;

/// Buckets 1 through `N-1` of a [`Distribution`], allocated only once a second distinct item
/// shows up. Index 0 is unused so that bucket numbering lines up with `Distribution`'s.
#[derive(Debug, Clone)]
pub struct Tail<T: Copy + PartialEq + Default, const N: usize> {
    pub buckets: [T; N],
    pub counts: [NumProfiles; N],
}

/// Whether `item` is a default item.
pub open spec fn is_default<T: Default>(item: T) -> bool {
    call_ensures(T::default, (), item)
}

impl<T: Copy + PartialEq + Default, const N: usize> Tail<T, N> {
    fn new() -> (r: Self)
        ensures
            forall|i: int| 0 <= i < N ==> is_default(#[trigger] r.buckets@[i]),
            forall|i: int| 0 <= i < N ==> #[trigger] r.counts@[i] == 0,
    {
        Tail { buckets: [T::default();N], counts: [0u8;N] }
    }
}

/// This implementation was inspired by the type feedback module from Google's S6, which was
/// written in C++ for use with Python.
///
/// Bucket 0 is stored inline and buckets 1..N are boxed, because one of these is retained per
/// profiled operand of every profiled instruction and the overwhelming majority of them only
/// ever see a single type.
#[derive(Debug, Clone)]
pub struct Distribution<T: Copy + PartialEq + Default, const N: usize> {
    /// Most frequently observed item, i.e. bucket 0. Meaningful only when `primary_count` is
    /// non-zero.
    pub primary: T,
    pub primary_count: NumProfiles,
    /// If there is no more room, increment the fallback.
    pub other: NumProfiles,
    /// Buckets 1..N, or `None` while this distribution is monomorphic.
    pub tail: Option<Box<Tail<T, N>>>,
}

/// What a [`Distribution`] has recorded.
pub struct DistModel<T> {
    /// The item in each bucket, None for an empty bucket.
    pub items: Seq<Option<T>>,
    /// How often the item in each bucket was observed.
    pub counts: Seq<NumProfiles>,
    /// Observations that did not fit in any bucket.
    pub other: NumProfiles,
    /// Whether there is room for more than bucket 0.
    pub boxed: bool,
}

/// `c + 1`, or `c` at the limit.
pub open spec fn counted_once_more(c: NumProfiles) -> NumProfiles {
    if c == NumProfiles::MAX {
        c
    } else {
        (c + 1) as NumProfiles
    }
}

/// The sum of some counts.
pub open spec fn total(counts: Seq<NumProfiles>) -> nat
    decreases counts.len(),
{
    if counts.len() == 0 {
        0
    } else {
        total(counts.drop_last()) + counts.last() as nat
    }
}

/// How many counts are not 0.
pub open spec fn used(counts: Seq<NumProfiles>) -> nat
    decreases counts.len(),
{
    if counts.len() == 0 {
        0
    } else {
        used(counts.drop_last()) + if counts.last() > 0 {
            1nat
        } else {
            0
        }
    }
}

/// The items in non-empty buckets, in order.
pub open spec fn occupied<T>(items: Seq<Option<T>>) -> Seq<T>
    decreases items.len(),
{
    if items.len() == 0 {
        Seq::empty()
    } else {
        let init = occupied(items.drop_last());
        match items.last() {
            Some(item) => init.push(item),
            None => init,
        }
    }
}

/// The index of the largest count. Ties go to the highest index.
pub open spec fn last_max(counts: Seq<NumProfiles>) -> int
    decreases counts.len(),
{
    if counts.len() <= 1 {
        0
    } else {
        let k = last_max(counts.drop_last());
        if counts.last() >= counts[k] {
            counts.len() - 1
        } else {
            k
        }
    }
}

/// Buckets 0 and `k` trade places.
pub open spec fn swapped<T>(m: DistModel<T>, k: int) -> DistModel<T> {
    DistModel {
        items: m.items.update(0, m.items[k]).update(k, m.items[0]),
        counts: m.counts.update(0, m.counts[k]).update(k, m.counts[0]),
        ..m
    }
}

/// The most frequent item moves to the front.
pub open spec fn bubbled<T>(m: DistModel<T>) -> DistModel<T> {
    swapped(m, last_max(m.counts))
}

/// `item` is observed once more in bucket `k`.
pub open spec fn counted<T>(m: DistModel<T>, k: int, item: T) -> DistModel<T> {
    DistModel {
        items: m.items.update(k, Some(item)),
        counts: m.counts.update(k, counted_once_more(m.counts[k])),
        ..m
    }
}

/// Something is observed that fits no bucket.
pub open spec fn missed<T>(m: DistModel<T>) -> DistModel<T> {
    DistModel { other: counted_once_more(m.other), ..m }
}

/// Whether bucket `k` takes `item`: it already holds it, or is still empty.
pub open spec fn takes<T: PartialEq>(m: DistModel<T>, k: int, item: T) -> bool {
    m.counts[k] == 0 || (m.items[k] matches Some(held) && held.eq_spec(&item))
}

/// The first bucket from `k` on that takes `item`.
pub open spec fn slot_from<T: PartialEq>(m: DistModel<T>, item: T, k: int) -> Option<int>
    decreases m.counts.len() - k,
{
    if k >= m.counts.len() {
        None
    } else if takes(m, k, item) {
        Some(k)
    } else {
        slot_from(m, item, k + 1)
    }
}

/// What is recorded after `item` was observed once more.
pub open spec fn observed<T: PartialEq>(m: DistModel<T>, item: T) -> DistModel<T> {
    if m.counts.len() == 0 {
        missed(m)
    } else if takes(m, 0, item) {
        bubbled(counted(m, 0, item))
    } else {
        let wide = DistModel { boxed: true, ..m };
        match slot_from(m, item, 1) {
            Some(k) => bubbled(counted(wide, k, item)),
            None => missed(wide),
        }
    }
}

/// The buckets below `k` all hold something that `==` told apart from `item`.
pub open spec fn told_apart<T: PartialEq>(m: DistModel<T>, item: T, k: int) -> bool {
    forall|i: int|
        0 <= i < k ==> (#[trigger] m.items[i] matches Some(held) && call_ensures(
            T::eq,
            (&held, &item),
            false,
        ))
}

/// `slot` is the first bucket that is empty or holds what `==` takes for `item`. None if there is
/// no such bucket.
pub open spec fn goes_to<T: PartialEq>(m: DistModel<T>, item: T, slot: Option<int>) -> bool {
    match slot {
        Some(k) => {
            &&& 0 <= k < m.counts.len()
            &&& told_apart(m, item, k)
            &&& m.counts[k] == 0 || (m.items[k] matches Some(held) && call_ensures(
                T::eq,
                (&held, &item),
                true,
            ))
        },
        None => told_apart(m, item, m.counts.len() as int),
    }
}

/// What is recorded after `item` was observed once more, in bucket `slot` or in none.
pub open spec fn observed_in<T>(m: DistModel<T>, item: T, slot: Option<int>) -> DistModel<T> {
    match slot {
        Some(k) => bubbled(counted(DistModel { boxed: m.boxed || k > 0, ..m }, k, item)),
        None => missed(DistModel { boxed: m.boxed || m.counts.len() > 0, ..m }),
    }
}

pub proof fn lemma_last_max(counts: Seq<NumProfiles>)
    requires
        counts.len() > 0,
    ensures
        0 <= last_max(counts) < counts.len(),
        forall|i: int| 0 <= i < counts.len() ==> #[trigger] counts[i] <= counts[last_max(counts)],
        forall|i: int|
            last_max(counts) < i < counts.len() ==> #[trigger] counts[i] < counts[last_max(
                counts,
            )],
    decreases counts.len(),
{
    if counts.len() > 1 {
        let init = counts.drop_last();
        lemma_last_max(init);
        let k = last_max(init);
        assert(init[k] == counts[k]);
        assert forall|i: int| 0 <= i < counts.len() implies #[trigger] counts[i]
            <= counts[last_max(counts)] by {
            if i < init.len() {
                assert(init[i] == counts[i]);
            }
        }
        assert forall|i: int| last_max(counts) < i < counts.len() implies #[trigger] counts[i]
            < counts[last_max(counts)] by {
            if i < init.len() {
                assert(init[i] == counts[i]);
            }
        }
    }
}

impl<T: Copy + PartialEq + Default, const N: usize> View for Distribution<T, N> {
    type V = DistModel<T>;

    open spec fn view(&self) -> DistModel<T> {
        DistModel {
            items: Seq::new(
                N as nat,
                |i: int|
                    if self.count_at(i) > 0 {
                        Some(self.item_at(i))
                    } else {
                        None
                    },
            ),
            counts: Seq::new(N as nat, |i: int| self.count_at(i)),
            other: self.other,
            boxed: self.tail is Some,
        }
    }
}

impl<T: Copy + PartialEq + Default, const N: usize> Distribution<T, N> {
    pub open spec fn count_at(&self, i: int) -> NumProfiles {
        if i == 0 {
            self.primary_count
        } else {
            match self.tail {
                Some(tail) => tail.counts@[i],
                None => 0,
            }
        }
    }

    pub open spec fn item_at(&self, i: int) -> T {
        if i == 0 {
            self.primary
        } else {
            self.tail.unwrap().buckets@[i]
        }
    }

    /// Empty buckets hold default items, and nothing is in the tail unless something is in
    /// bucket 0.
    pub open spec fn layout_ok(&self) -> bool {
        &&& N == 0 ==> self.primary_count == 0 && self.tail is None
        &&& self.primary_count == 0 ==> is_default(self.primary)
        &&& self.tail matches Some(tail) ==> {
            &&& self.primary_count > 0
            &&& forall|i: int|
                1 <= i < N && tail.counts@[i] == 0 ==> is_default(#[trigger] tail.buckets@[i])
        }
    }

    /// Bucket 0 has the largest count.
    pub open spec fn front_is_max(&self) -> bool {
        forall|i: int| 0 <= i < N ==> #[trigger] self.count_at(i) <= self.primary_count
    }

    /// What every operation keeps.
    pub open spec fn wf(&self) -> bool {
        self.layout_ok() && self.front_is_max()
    }

    /// Nothing was observed yet.
    pub fn new() -> (r: Self)
        ensures
            r.wf(),
            r@.counts == Seq::new(N as nat, |i: int| 0u8),
            r@.items == Seq::new(N as nat, |i: int| None::<T>),
            r@.other == 0,
            !r@.boxed,
    {
        let r = Distribution { primary: T::default(), primary_count: 0, other: 0, tail: None };
        assert(r@.counts =~= Seq::new(N as nat, |i: int| 0u8));
        assert(r@.items =~= Seq::new(N as nat, |i: int| None::<T>));
        r
    }

    /// The item in bucket `idx`. Zero-count buckets hold `T::default()`.
    pub fn bucket(&self, idx: usize) -> (r: T)
        requires
            self.wf(),
            idx < N,
        ensures
            match self@.items[idx as int] {
                Some(item) => r == item,
                None => is_default(r),
            },
    {
        vstd::pervasive::runtime_assert(idx < N);
        if idx == 0 {
            self.primary
        } else {
            match &self.tail {
                Some(tail) => tail.buckets[idx],
                None => T::default(),
            }
        }
    }

    /// How many times bucket `idx`'s item was observed.
    pub fn count(&self, idx: usize) -> (r: NumProfiles)
        requires
            self.wf(),
        ensures
            r == if idx < N {
                self@.counts[idx as int]
            } else {
                0
            },
    {
        if idx == 0 {
            self.primary_count
        } else if idx < N {
            match &self.tail {
                Some(tail) => tail.counts[idx],
                None => 0,
            }
        } else {
            0
        }
    }

    /// Observations that did not fit in any bucket.
    pub fn other(&self) -> (r: NumProfiles)
        ensures
            r == self@.other,
    {
        self.other
    }

    /// Total number of observations, bucketed or not.
    pub fn num_observed(&self) -> (r: usize)
        requires
            self.wf(),
            total(self@.counts) + self@.other <= usize::MAX,
        ensures
            r == total(self@.counts) + self@.other,
    {
        let ghost counts = self@.counts;
        let mut sum: usize = 0;
        let mut idx: usize = 0;
        while idx < N
            invariant
                self.wf(),
                total(counts) <= usize::MAX,
                idx <= N,
                counts == self@.counts,
                sum == total(counts.take(idx as int)),
            decreases N - idx,
        {
            proof {
                lemma_total_take(counts, idx + 1);
                assert(counts.take(idx + 1).drop_last() =~= counts.take(idx as int));
            }
            sum = sum + self.count(idx) as usize;
            idx = idx + 1;
        }
        assert(counts.take(idx as int) =~= counts);
        sum + self.other as usize
    }

    /// How many buckets hold an observed item. Zero means nothing was observed; `N` alongside
    /// a non-zero [`Self::other`] means megamorphic.
    pub fn num_buckets_used(&self) -> (r: usize)
        requires
            self.wf(),
        ensures
            r == used(self@.counts),
    {
        let ghost counts = self@.counts;
        let mut found: usize = 0;
        let mut idx: usize = 0;
        while idx < N
            invariant
                self.wf(),
                idx <= N,
                counts == self@.counts,
                found == used(counts.take(idx as int)),
                found <= idx,
            decreases N - idx,
        {
            if self.count(idx) > 0 {
                found = found + 1;
            }
            idx = idx + 1;
            assert(counts.take(idx as int).drop_last() =~= counts.take(idx - 1));
        }
        assert(counts.take(idx as int) =~= counts);
        found
    }

    /// Bytes this distribution owns on the heap outside of itself, i.e. the boxed tail once it
    /// has gone polymorphic.
    pub fn heap_size(&self) -> (r: usize)
        ensures
            r == if self@.boxed {
                vstd::layout::size_of::<Tail<T, N>>()
            } else {
                0
            },
    {
        match &self.tail {
            Some(_) => core::mem::size_of::<Tail<T, N>>(),
            None => 0,
        }
    }

    /// Snapshot of every bucket, for [`DistributionSummary`].
    pub fn buckets(&self) -> (r: [T; N])
        requires
            self.wf(),
        ensures
            forall|i: int|
                0 <= i < N ==> match #[trigger] self@.items[i] {
                    Some(item) => r@[i] == item,
                    None => is_default(r@[i]),
                },
    {
        let mut buckets: [T; N] = [T::default();N];
        let mut idx: usize = 0;
        while idx < N
            invariant
                self.wf(),
                idx <= N,
                forall|i: int|
                    0 <= i < idx ==> match #[trigger] self@.items[i] {
                        Some(item) => buckets@[i] == item,
                        None => is_default(buckets@[i]),
                    },
            decreases N - idx,
        {
            buckets[idx] = self.bucket(idx);
            idx = idx + 1;
        }
        buckets
    }

    /// Snapshot of every bucket's count, for [`DistributionSummary`].
    pub fn counts(&self) -> (r: [NumProfiles; N])
        requires
            self.wf(),
        ensures
            r@ == self@.counts,
    {
        let mut counts: [NumProfiles; N] = [0u8;N];
        let mut idx: usize = 0;
        while idx < N
            invariant
                self.wf(),
                idx <= N,
                forall|i: int| 0 <= i < idx ==> counts@[i] == #[trigger] self@.counts[i],
            decreases N - idx,
        {
            counts[idx] = self.count(idx);
            idx = idx + 1;
        }
        assert(counts@ =~= self@.counts);
        counts
    }

    /// Materialize buckets 1..N.
    fn widen(&mut self)
        requires
            old(self).wf(),
            old(self).primary_count > 0,
        ensures
            final(self).wf(),
            final(self).tail is Some,
            final(self)@ == (DistModel { boxed: true, ..old(self)@ }),
    {
        if self.tail.is_none() {
            self.tail = Some(Box::new(Tail::new()));
        }
        assert(self@.counts =~= old(self)@.counts);
        assert(self@.items =~= old(self)@.items);
    }

    /// Record `item` in bucket `idx` of the tail.
    fn put(&mut self, idx: usize, item: T, count: NumProfiles)
        requires
            old(self).layout_ok(),
            old(self).tail is Some,
            1 <= idx < N,
            count > 0,
        ensures
            final(self).layout_ok(),
            final(self).primary == old(self).primary,
            final(self).primary_count == old(self).primary_count,
            final(self)@ == (DistModel {
                items: old(self)@.items.update(idx as int, Some(item)),
                counts: old(self)@.counts.update(idx as int, count),
                ..old(self)@
            }),
    {
        match &mut self.tail {
            Some(tail) => {
                tail.buckets[idx] = item;
                tail.counts[idx] = count;
            },
            None => {},
        }
        assert(self@.counts =~= old(self)@.counts.update(idx as int, count));
        assert(self@.items =~= old(self)@.items.update(idx as int, Some(item)));
    }

    /// Observe `item` once more.
    pub fn observe(&mut self, item: T)
        requires
            old(self).wf(),
        ensures
            final(self).wf(),
            exists|slot: Option<int>| #[trigger]
                goes_to(old(self)@, item, slot) && final(self)@ == observed_in(
                    old(self)@,
                    item,
                    slot,
                ),
            T::obeys_eq_spec() ==> final(self)@ == observed(old(self)@, item),
    {
        let ghost m = self@;
        if N == 0 {
            self.other = self.other.saturating_add(1);
            proof {
                assert(self@.counts =~= m.counts);
                assert(self@.items =~= m.items);
                assert(goes_to(m, item, None));
            }
            return;
        }
        // Bucket 0 takes the item if it already holds it or is still empty.
        if self.primary_count == 0 || self.primary == item {
            self.primary = item;
            self.primary_count = self.primary_count.saturating_add(1);
            proof {
                assert(self@.counts =~= counted(old(self)@, 0, item).counts);
                assert(self@.items =~= counted(old(self)@, 0, item).items);
                assert(goes_to(m, item, Some(0int)));
            }
            self.bubble_up();
            return;
        }
        // A second distinct item: materialize buckets 1..N.
        self.widen();
        let ghost wide = self@;
        let mut idx: usize = 1;
        while idx < N
            invariant
                self.wf(),
                self.tail is Some,
                self@ == wide,
                1 <= idx <= N,
                m == old(self)@,
                m.counts.len() == N,
                m.items.len() == N,
                told_apart(m, item, idx as int),
                T::obeys_eq_spec() ==> slot_from(wide, item, 1) == slot_from(
                    wide,
                    item,
                    idx as int,
                ),
                T::obeys_eq_spec() ==> !takes(old(self)@, 0, item),
                N > 0,
                wide == (DistModel { boxed: true, ..old(self)@ }),
                T::obeys_eq_spec() ==> slot_from(wide, item, 1) == slot_from(
                    old(self)@,
                    item,
                    1,
                ),
            decreases N - idx,
        {
            let held: T = self.bucket(idx);
            let count: NumProfiles = self.count(idx);
            if count == 0 || held == item {
                self.put(idx, item, count.saturating_add(1));
                proof {
                    assert(self@ == counted(wide, idx as int, item));
                    assert(goes_to(m, item, Some(idx as int)));
                }
                // Keep the most frequent item at the front
                self.bubble_up();
                return;
            }
            idx = idx + 1;
        }
        let ghost full = *self;
        self.other = self.other.saturating_add(1);
        proof {
            assert(goes_to(m, item, None));
            assert(self@.counts =~= wide.counts);
            assert(self@.items =~= wide.items);
            assert forall|i: int| 0 <= i < N implies #[trigger] self.count_at(i)
                <= self.primary_count by {
                assert(self.count_at(i) == full.count_at(i));
            }
        }
    }

    /// Keep the highest counted bucket at index 0. Ties go to the highest bucket index.
    fn bubble_up(&mut self)
        requires
            old(self).layout_ok(),
            old(self).primary_count > 0,
            N > 0,
        ensures
            final(self).wf(),
            final(self)@ == bubbled(old(self)@),
    {
        let ghost counts = self@.counts;
        let ghost before = self@;
        proof {
            lemma_last_max(counts);
        }
        let mut max_index: usize = 0;
        let mut max_count: NumProfiles = self.primary_count;
        match &mut self.tail {
            None => {
                proof {
                    assert(forall|i: int| 1 <= i < N ==> counts[i] == 0);
                    assert(last_max(counts) == 0) by {
                        if last_max(counts) != 0 {
                            assert(counts[0] <= counts[last_max(counts)]);
                        }
                    }
                    assert(bubbled(before).counts =~= before.counts);
                    assert(bubbled(before).items =~= before.items);
                }
                return;
            },
            Some(tail) => {
                let mut idx: usize = 1;
                assert(counts.take(1).len() == 1);
                while idx < N
                    invariant
                        1 <= idx <= N,
                        counts.len() == N,
                        forall|i: int| 1 <= i < N ==> counts[i] == tail.counts@[i],
                        max_index == last_max(counts.take(idx as int)),
                        max_index < idx,
                        max_count == counts[max_index as int],
                    decreases N - idx,
                {
                    if tail.counts[idx] >= max_count {
                        max_count = tail.counts[idx];
                        max_index = idx;
                    }
                    idx = idx + 1;
                    assert(counts.take(idx as int).drop_last() =~= counts.take(idx - 1));
                }
                assert(counts.take(idx as int) =~= counts);
                if max_index != 0 {
                    let item: T = tail.buckets[max_index];
                    tail.buckets[max_index] = self.primary;
                    tail.counts[max_index] = self.primary_count;
                    self.primary = item;
                    self.primary_count = max_count;
                }
            },
        }
        proof {
            assert(self@.counts =~= bubbled(before).counts);
            assert(self@.items =~= bubbled(before).items);
            assert forall|i: int| 0 <= i < N implies #[trigger] self.count_at(i)
                <= self.primary_count by {
                assert(self@.counts[i] == self.count_at(i));
                assert(bubbled(before).counts[i] <= counts[last_max(counts)]);
            }
        }
    }

    /// Look `item` up and, if `matches` finds no bucket holding it and a bucket is free,
    /// record it there. Unlike [`Self::observe`] this does not count the sighting and does not
    /// reorder the buckets, so the index it reports stays valid for as long as the distribution
    /// is only updated this way: a caller that remembers how many buckets were occupied at some
    /// earlier point can tell from the index alone whether an item was already known then.
    ///
    /// New buckets always start at a count of 1, which cannot exceed `count(0)`, so this
    /// preserves "bucket 0 is the most common item" without bubbling.
    ///
    /// Like [`Self::observe`], this only materializes the boxed tail once a second distinct
    /// item shows up.
    pub fn observe_stable<F: Fn(T, T) -> bool>(&mut self, item: T, matches: F) -> (r: StableBucket)
        requires
            old(self).wf(),
            forall|i: int|
                0 <= i < N ==> (#[trigger] old(self)@.items[i] matches Some(held) ==> call_requires(
                    matches,
                    (held, item),
                )),
        ensures
            final(self).wf(),
            stably_observed(old(self)@, final(self)@, matches, item, r),
    {
        if N == 0 {
            self.other = self.other.saturating_add(1);
            assert(self@.counts =~= old(self)@.counts);
            assert(self@.items =~= old(self)@.items);
            return StableBucket::Full;
        }
        // Bucket 0 lives inline.
        if self.primary_count == 0 {
            self.primary = item;
            self.primary_count = 1;
            assert(self@.counts =~= old(self)@.counts.update(0, 1));
            assert(self@.items =~= old(self)@.items.update(0, Some(item)));
            return StableBucket::Inserted(0);
        }
        assert(old(self)@.items[0] == Some(self.primary));
        if matches(self.primary, item) {
            return StableBucket::Existing(0);
        }
        // A second distinct item: materialize buckets 1..N.
        self.widen();
        let ghost wide = self@;
        let mut index: usize = 1;
        while index < N
            invariant
                self.wf(),
                self.tail is Some,
                self@ == wide,
                wide == (DistModel { boxed: true, ..old(self)@ }),
                1 <= index,
                index <= N,
                forall|i: int|
                    0 <= i < N ==> (#[trigger] old(self)@.items[i] matches Some(held)
                        ==> call_requires(matches, (held, item))),
                all_differ(old(self)@, matches, item, index as int),
            decreases N - index,
        {
            if self.count(index) == 0 {
                let ghost before = *self;
                self.put(index, item, 1);
                proof {
                    assert forall|i: int| 0 <= i < N implies #[trigger] self.count_at(i)
                        <= self.primary_count by {
                        assert(self@.counts[i] == self.count_at(i));
                        assert(before.count_at(i) == before@.counts[i]);
                    }
                }
                return StableBucket::Inserted(index);
            }
            if matches(self.bucket(index), item) {
                return StableBucket::Existing(index);
            }
            index = index + 1;
        }
        let ghost full = *self;
        self.other = self.other.saturating_add(1);
        proof {
            assert(self@.counts =~= wide.counts);
            assert(self@.items =~= wide.items);
            assert forall|i: int| 0 <= i < N implies #[trigger] self.count_at(i)
                <= self.primary_count by {
                assert(self.count_at(i) == full.count_at(i));
            }
        }
        StableBucket::Full
    }

    /// Drop every bucket but bucket 0, and forget the items that did not fit in one, leaving
    /// the distribution as if only bucket 0's item had ever been observed.
    pub fn retain_primary(&mut self)
        requires
            old(self).wf(),
        ensures
            final(self).wf(),
            final(self)@ == retained(old(self)@),
    {
        self.tail = None;
        self.other = 0;
        assert(self@.counts =~= retained(old(self)@).counts);
        assert(self@.items =~= retained(old(self)@).items);
    }

    /// Every item in a non-empty bucket, bucket 0 first.
    pub fn each_item(&self) -> (r: Vec<T>)
        requires
            self.wf(),
        ensures
            r@ == occupied(self@.items),
    {
        let ghost items = self@.items;
        let mut found: Vec<T> = Vec::new();
        let mut idx: usize = 0;
        while idx < N
            invariant
                self.wf(),
                idx <= N,
                items == self@.items,
                found@ == occupied(items.take(idx as int)),
            decreases N - idx,
        {
            if self.count(idx) > 0 {
                found.push(self.bucket(idx));
            }
            idx = idx + 1;
            assert(items.take(idx as int).drop_last() =~= items.take(idx - 1));
        }
        assert(items.take(idx as int) =~= items);
        found
    }

    /// Replace every item in a non-empty bucket by what `f` makes of it.
    pub fn each_item_mut<F: Fn(T) -> T>(&mut self, f: F)
        requires
            old(self).wf(),
            forall|i: int|
                0 <= i < N ==> (#[trigger] old(self)@.items[i] matches Some(item) ==> call_requires(
                    f,
                    (item,),
                )),
        ensures
            final(self).wf(),
            final(self)@ == (DistModel { items: final(self)@.items, ..old(self)@ }),
            forall|i: int|
                0 <= i < N ==> match old(self)@.items[i] {
                    Some(item) => #[trigger] final(self)@.items[i] matches Some(made)
                        && call_ensures(f, (item,), made),
                    None => final(self)@.items[i] is None,
                },
    {
        if N > 0 && self.primary_count > 0 {
            assert(old(self)@.items[0] == Some(self.primary));
            self.primary = f(self.primary);
        }
        let ghost first = *self;
        assert forall|i: int| 0 <= i < N implies #[trigger] self.count_at(i)
            <= self.primary_count by {
            assert(self.count_at(i) == old(self).count_at(i));
        }
        if self.tail.is_some() {
            let mut idx: usize = 1;
            while idx < N
                invariant
                    N > 0 ==> 1 <= idx <= N,
                    1 <= idx,
                    forall|i: int|
                        0 <= i < N ==> (#[trigger] old(self)@.items[i] matches Some(item)
                            ==> call_requires(f, (item,))),
                    old(self).wf(),
                    self.wf(),
                    self.tail is Some,
                    self.primary == first.primary,
                    self@.counts == old(self)@.counts,
                    self@.other == old(self)@.other,
                    old(self)@.boxed,
                    first.primary_count == old(self).primary_count,
                    first.primary_count > 0 && N > 0 ==> call_ensures(
                        f,
                        (old(self).primary,),
                        first.primary,
                    ),
                    forall|i: int|
                        1 <= i < N ==> match old(self)@.items[i] {
                            Some(item) => #[trigger] self@.items[i] matches Some(made) && if i
                                < idx {
                                call_ensures(f, (item,), made)
                            } else {
                                made == item
                            },
                            None => self@.items[i] is None,
                        },
                decreases N - idx,
            {
                let count: NumProfiles = self.count(idx);
                if count > 0 {
                    let ghost before = *self;
                    let held: T = self.bucket(idx);
                    let made: T = f(held);
                    self.put(idx, made, count);
                    proof {
                        assert(self@.counts =~= before@.counts);
                        assert forall|i: int| 0 <= i < N implies #[trigger] self.count_at(i)
                            <= self.primary_count by {
                            assert(self@.counts[i] == self.count_at(i));
                            assert(before.count_at(i) == before@.counts[i]);
                        }
                        assert(before@.items[idx as int] == Some(held));
                    }
                }
                idx = idx + 1;
            }
        }
        proof {
            assert(self@.counts =~= old(self)@.counts);
            assert forall|i: int| 0 <= i < N implies match old(self)@.items[i] {
                Some(item) => #[trigger] self@.items[i] matches Some(made) && call_ensures(
                    f,
                    (item,),
                    made,
                ),
                None => self@.items[i] is None,
            } by {
                assert(old(self)@.counts[i] == old(self).count_at(i));
            }
        }
    }
}

/// Only bucket 0 is left.
pub open spec fn retained<T>(m: DistModel<T>) -> DistModel<T> {
    DistModel {
        items: Seq::new(
            m.items.len(),
            |i: int|
                if i == 0 {
                    m.items[0]
                } else {
                    None
                },
        ),
        counts: Seq::new(
            m.counts.len(),
            |i: int|
                if i == 0 {
                    m.counts[0]
                } else {
                    0u8
                },
        ),
        other: 0,
        boxed: false,
    }
}

/// Whether the buckets below `k` all hold something that `matches` told apart from `item`.
pub open spec fn all_differ<T, F: Fn(T, T) -> bool>(
    m: DistModel<T>,
    matches: F,
    item: T,
    k: int,
) -> bool {
    forall|i: int|
        0 <= i < k ==> (#[trigger] m.items[i] matches Some(held) && call_ensures(
            matches,
            (held, item),
            false,
        ))
}

/// What is recorded after [`Distribution::observe_stable`]: `m` turned to `after`, and `r` was
/// reported.
pub open spec fn stably_observed<T, F: Fn(T, T) -> bool>(
    m: DistModel<T>,
    after: DistModel<T>,
    matches: F,
    item: T,
    r: StableBucket,
) -> bool {
    match r {
        StableBucket::Existing(k) => {
            &&& k < m.counts.len()
            &&& all_differ(m, matches, item, k as int)
            &&& m.items[k as int] matches Some(held) && call_ensures(matches, (held, item), true)
            &&& after == (DistModel { boxed: m.boxed || k > 0, ..m })
        },
        StableBucket::Inserted(k) => {
            &&& k < m.counts.len()
            &&& all_differ(m, matches, item, k as int)
            &&& m.counts[k as int] == 0
            &&& after == (DistModel {
                items: m.items.update(k as int, Some(item)),
                counts: m.counts.update(k as int, 1),
                boxed: m.boxed || k > 0,
                ..m
            })
        },
        StableBucket::Full => {
            &&& all_differ(m, matches, item, m.counts.len() as int)
            &&& after == (DistModel { boxed: m.boxed || m.counts.len() > 0, ..missed(m) })
        },
    }
}

/// Where an item sits in a [`Distribution`] after [`Distribution::observe_stable`].
#[derive(PartialEq, Eq, Structural, Debug, Clone, Copy)]
pub enum StableBucket {
    /// The item already had this bucket.
    Existing(usize),
    /// The item was recorded in this bucket, which was empty until now.
    Inserted(usize),
    /// Every bucket belongs to some other item; this one was only counted as `other`.
    Full,
}

/// How varied what a [`Distribution`] saw is.
#[derive(PartialEq, Eq, Structural, Debug, Clone, Copy)]
pub enum DistributionKind {
    /// No types seen
    Empty,
    /// One type seen
    Monomorphic,
    /// Between 2 and (fixed) N types seen
    Polymorphic,
    /// Polymorphic, but with a significant skew towards one type
    SkewedPolymorphic,
    /// More than N types seen with no clear winner
    Megamorphic,
    /// Megamorphic, but with a significant skew towards one type
    SkewedMegamorphic,
}

/// What a [`Distribution`] saw, classified.
#[derive(Debug, Clone)]
pub struct DistributionSummary<T: Copy + PartialEq + Default, const N: usize> {
    pub kind: DistributionKind,
    pub buckets: [T; N],
    /// How many samples landed in each bucket, in the same order as `buckets`
    pub counts: [NumProfiles; N],
    /// How many samples did not fit in any bucket
    pub other: NumProfiles,
}

/// A fraction of the samples that a summary was built from.
#[derive(PartialEq, Eq, Structural, Debug, Clone, Copy)]
pub struct Coverage {
    /// How many samples count.
    pub covered: u32,
    /// How many samples there are.
    pub num_seen: u32,
}

/// Whether `first` of `seen` samples is a significant skew: three quarters or more.
pub open spec fn is_skewed(first: int, seen: int) -> bool {
    4 * first >= 3 * seen
}

/// How varied `m` is.
pub open spec fn kind_of<T>(m: DistModel<T>) -> DistributionKind {
    let first = if m.counts.len() > 0 {
        m.counts[0]
    } else {
        0
    };
    let second = if m.counts.len() > 1 {
        m.counts[1]
    } else {
        0
    };
    let seen = total(m.counts) + m.other;
    if m.other == 0 {
        if first == 0 {
            DistributionKind::Empty
        } else if second == 0 {
            DistributionKind::Monomorphic
        } else if is_skewed(first as int, seen) {
            DistributionKind::SkewedPolymorphic
        } else {
            DistributionKind::Polymorphic
        }
    } else if is_skewed(first as int, seen) {
        DistributionKind::SkewedMegamorphic
    } else {
        DistributionKind::Megamorphic
    }
}

/// The sum of those of `counts` that are kept.
pub open spec fn kept_total(counts: Seq<NumProfiles>, kept: Seq<bool>) -> nat
    decreases counts.len(),
{
    if counts.len() == 0 {
        0
    } else {
        kept_total(counts.drop_last(), kept.drop_last()) + if kept.last() {
            counts.last() as nat
        } else {
            0
        }
    }
}

/// `kept` says which buckets `keep` keeps. Empty buckets do not matter.
pub open spec fn keeps<T, F: Fn(usize, T) -> bool>(
    buckets: Seq<T>,
    counts: Seq<NumProfiles>,
    keep: F,
    kept: Seq<bool>,
) -> bool {
    &&& kept.len() == counts.len()
    &&& forall|i: int|
        0 <= i < counts.len() && counts[i] > 0 ==> call_ensures(
            keep,
            (i as usize, buckets[i]),
            #[trigger] kept[i],
        )
}

impl<T: Copy + PartialEq + Default, const N: usize> DistributionSummary<T, N> {
    /// Nothing was seen.
    pub fn empty() -> (r: Self)
        ensures
            r.kind == DistributionKind::Empty,
            forall|i: int| 0 <= i < N ==> is_default(#[trigger] r.buckets@[i]),
            forall|i: int| 0 <= i < N ==> #[trigger] r.counts@[i] == 0,
            r.other == 0,
    {
        DistributionSummary {
            kind: DistributionKind::Empty,
            buckets: [T::default();N],
            counts: [0u8;N],
            other: 0,
        }
    }

    /// Build a summary that claims too many types were seen to be worth specializing. Used for
    /// the fallthrough of a type-dispatch chain: every profiled type already has its own
    /// branch, so whatever reaches the fallthrough is by construction a type the profile never
    /// saw.
    pub fn megamorphic() -> (r: Self)
        ensures
            r.kind == DistributionKind::Megamorphic,
            forall|i: int| 0 <= i < N ==> is_default(#[trigger] r.buckets@[i]),
            forall|i: int| 0 <= i < N ==> #[trigger] r.counts@[i] == 0,
            r.other == NumProfiles::MAX,
    {
        DistributionSummary {
            kind: DistributionKind::Megamorphic,
            buckets: [T::default();N],
            counts: [0u8;N],
            other: NumProfiles::MAX,
        }
    }

    /// Build a summary that looks like only `item` was ever observed. Used to hand a guarded
    /// arm of a polymorphic dispatch the one type it guarded on.
    pub fn monomorphic(item: T) -> (r: Self)
        requires
            N > 0,
        ensures
            r.kind == DistributionKind::Monomorphic,
            r.buckets@[0] == item,
            r.counts@[0] == 1,
            forall|i: int| 1 <= i < N ==> is_default(#[trigger] r.buckets@[i]),
            forall|i: int| 1 <= i < N ==> #[trigger] r.counts@[i] == 0,
            r.other == 0,
    {
        let mut items: Vec<T> = Vec::new();
        items.push(item);
        Self::monomorphic_variants(items.as_slice())
    }

    /// Build a monomorphic summary out of several items that a consumer treats as one. `items`
    /// beyond the bucket count are dropped.
    pub fn monomorphic_variants(items: &[T]) -> (r: Self)
        requires
            N > 0,
            items@.len() > 0,
        ensures
            r.kind == DistributionKind::Monomorphic,
            forall|i: int| 0 <= i < N && i < items@.len() ==> #[trigger] r.buckets@[i] == items@[i],
            forall|i: int| 0 <= i < N && i < items@.len() ==> #[trigger] r.counts@[i] == 1,
            forall|i: int| items@.len() <= i < N ==> is_default(#[trigger] r.buckets@[i]),
            forall|i: int| items@.len() <= i < N ==> #[trigger] r.counts@[i] == 0,
            r.other == 0,
    {
        vstd::pervasive::runtime_assert(N > 0);
        vstd::pervasive::runtime_assert(items.len() > 0);
        let mut buckets: [T; N] = [T::default();N];
        let mut counts: [NumProfiles; N] = [0u8;N];
        let mut idx: usize = 0;
        while idx < N && idx < items.len()
            invariant
                idx <= N,
                idx <= items@.len(),
                forall|i: int| 0 <= i < idx ==> #[trigger] buckets@[i] == items@[i],
                forall|i: int| 0 <= i < idx ==> #[trigger] counts@[i] == 1,
                forall|i: int| idx <= i < N ==> is_default(#[trigger] buckets@[i]),
                forall|i: int| idx <= i < N ==> #[trigger] counts@[i] == 0,
            decreases N - idx,
        {
            buckets[idx] = items[idx];
            counts[idx] = 1;
            idx = idx + 1;
        }
        DistributionSummary { kind: DistributionKind::Monomorphic, buckets, counts, other: 0 }
    }

    /// Summarize what `dist` saw.
    pub fn new(dist: &Distribution<T, N>) -> (r: Self)
        requires
            dist.wf(),
            total(dist@.counts) + dist@.other <= usize::MAX,
        ensures
            r.kind == kind_of(dist@),
            r.counts@ == dist@.counts,
            r.other == dist@.other,
            forall|i: int|
                0 <= i < N ==> match #[trigger] dist@.items[i] {
                    Some(item) => r.buckets@[i] == item,
                    None => is_default(r.buckets@[i]),
                },
    {
        let num_seen: u128 = dist.num_observed() as u128;
        let first: u128 = dist.count(0) as u128;
        let skewed: bool = 4 * first >= 3 * num_seen;
        let kind: DistributionKind = if dist.other() == 0 {
            // Seen <= N types total
            if dist.count(0) == 0 {
                DistributionKind::Empty
            } else if dist.count(1) == 0 {
                DistributionKind::Monomorphic
            } else if skewed {
                DistributionKind::SkewedPolymorphic
            } else {
                DistributionKind::Polymorphic
            }
        } else {
            // Seen > N types total; considered megamorphic
            if skewed {
                DistributionKind::SkewedMegamorphic
            } else {
                DistributionKind::Megamorphic
            }
        };
        DistributionSummary {
            kind,
            buckets: dist.buckets(),
            counts: dist.counts(),
            other: dist.other(),
        }
    }

    pub fn is_monomorphic(&self) -> (r: bool)
        ensures
            r == (self.kind == DistributionKind::Monomorphic),
    {
        self.kind == DistributionKind::Monomorphic
    }

    pub fn is_polymorphic(&self) -> (r: bool)
        ensures
            r == (self.kind == DistributionKind::Polymorphic),
    {
        self.kind == DistributionKind::Polymorphic
    }

    pub fn is_skewed_polymorphic(&self) -> (r: bool)
        ensures
            r == (self.kind == DistributionKind::SkewedPolymorphic),
    {
        self.kind == DistributionKind::SkewedPolymorphic
    }

    pub fn is_megamorphic(&self) -> (r: bool)
        ensures
            r == (self.kind == DistributionKind::Megamorphic),
    {
        self.kind == DistributionKind::Megamorphic
    }

    pub fn is_skewed_megamorphic(&self) -> (r: bool)
        ensures
            r == (self.kind == DistributionKind::SkewedMegamorphic),
    {
        self.kind == DistributionKind::SkewedMegamorphic
    }

    pub fn bucket(&self, idx: usize) -> (r: T)
        requires
            idx < N,
        ensures
            r == self.buckets@[idx as int],
    {
        vstd::pervasive::runtime_assert(idx < N);
        self.buckets[idx]
    }

    pub fn buckets(&self) -> (r: &[T])
        ensures
            r@ == self.buckets@,
    {
        self.buckets.as_slice()
    }

    /// How many samples landed in `buckets[idx]`. 0 means the bucket is unused.
    pub fn bucket_count(&self, idx: usize) -> (r: NumProfiles)
        requires
            idx < N,
        ensures
            r == self.counts@[idx as int],
    {
        vstd::pervasive::runtime_assert(idx < N);
        self.counts[idx]
    }

    /// Total number of samples this summary was built from, including the ones that did not
    /// fit in a bucket.
    pub fn num_seen(&self) -> (r: u32)
        requires
            total(self.counts@) + self.other <= u32::MAX,
        ensures
            r == total(self.counts@) + self.other,
    {
        let ghost counts = self.counts@;
        let mut sum: u32 = 0;
        let mut idx: usize = 0;
        while idx < N
            invariant
                total(counts) <= u32::MAX,
                idx <= N,
                counts == self.counts@,
                sum == total(counts.take(idx as int)),
            decreases N - idx,
        {
            proof {
                lemma_total_take(counts, idx + 1);
                assert(counts.take(idx + 1).drop_last() =~= counts.take(idx as int));
            }
            sum = sum + self.counts[idx] as u32;
            idx = idx + 1;
        }
        assert(counts.take(idx as int) =~= counts);
        sum + self.other as u32
    }

    /// How many of the observed samples landed in the buckets for which `keep` returns true.
    /// Used to decide whether a guard chain over those buckets is worth building: samples in
    /// other buckets, and samples that did not fit in any bucket, have to take the fallback.
    pub fn coverage<F: Fn(usize, T) -> bool>(&self, keep: F) -> (r: Coverage)
        requires
            total(self.counts@) + self.other <= u32::MAX,
            forall|i: int|
                0 <= i < N && self.counts@[i] > 0 ==> call_requires(
                    keep,
                    (i as usize, #[trigger] self.buckets@[i]),
                ),
        ensures
            r.num_seen == total(self.counts@) + self.other,
            exists|kept: Seq<bool>| #[trigger]
                keeps(self.buckets@, self.counts@, keep, kept) && r.covered == kept_total(
                    self.counts@,
                    kept,
                ),
            r.covered <= r.num_seen,
    {
        let ghost counts = self.counts@;
        let ghost kept: Seq<bool> = Seq::empty();
        let num_seen: u32 = self.num_seen();
        let mut covered: u32 = 0;
        let mut idx: usize = 0;
        while idx < N
            invariant
                total(counts) <= u32::MAX,
                idx <= N,
                counts == self.counts@,
                forall|i: int|
                    0 <= i < N && counts[i] > 0 ==> call_requires(
                        keep,
                        (i as usize, #[trigger] self.buckets@[i]),
                    ),
                kept.len() == idx,
                forall|i: int|
                    0 <= i < idx && counts[i] > 0 ==> call_ensures(
                        keep,
                        (i as usize, self.buckets@[i]),
                        #[trigger] kept[i],
                    ),
                covered == kept_total(counts.take(idx as int), kept),
                covered <= total(counts.take(idx as int)),
            decreases N - idx,
        {
            proof {
                lemma_total_take(counts, idx + 1);
                assert(counts.take(idx + 1).drop_last() =~= counts.take(idx as int));
            }
            let count: NumProfiles = self.counts[idx];
            let mut keeping: bool = false;
            if count > 0 {
                keeping = keep(idx, self.buckets[idx]);
            }
            if keeping {
                covered = covered + count as u32;
            }
            proof {
                assert(kept.push(keeping).drop_last() =~= kept);
                kept = kept.push(keeping);
            }
            idx = idx + 1;
        }
        proof {
            assert(counts.take(idx as int) =~= counts);
            assert(keeps(self.buckets@, self.counts@, keep, kept));
        }
        Coverage { covered, num_seen }
    }
}

// ---------------------------------------------------------------------------
// Laws
// ---------------------------------------------------------------------------
/// An observation is recorded: one more sample is counted, unless a count is at its limit.
pub proof fn law_observation_is_counted<T: PartialEq>(m: DistModel<T>, item: T)
    requires
        m.items.len() == m.counts.len(),
        m.other < NumProfiles::MAX,
        forall|i: int| 0 <= i < m.counts.len() ==> #[trigger] m.counts[i] < NumProfiles::MAX,
    ensures
        total(observed(m, item).counts) + observed(m, item).other == total(m.counts) + m.other + 1,
{
    if m.counts.len() > 0 {
        if takes(m, 0, item) {
            lemma_counted_total(m, 0, item);
            lemma_bubbled_total(counted(m, 0, item));
        } else {
            let wide = DistModel { boxed: true, ..m };
            lemma_slot_from(m, item, 1);
            if let Some(k) = slot_from(m, item, 1) {
                lemma_counted_total(wide, k, item);
                lemma_bubbled_total(counted(wide, k, item));
            }
        }
    }
}

proof fn lemma_slot_from<T: PartialEq>(m: DistModel<T>, item: T, k: int)
    requires
        0 <= k,
    ensures
        match slot_from(m, item, k) {
            Some(j) => {
                &&& k <= j < m.counts.len()
                &&& takes(m, j, item)
                &&& forall|i: int| k <= i < j ==> !#[trigger] takes(m, i, item)
            },
            None => forall|i: int| k <= i < m.counts.len() ==> !#[trigger] takes(m, i, item),
        },
    decreases m.counts.len() - k,
{
    if k < m.counts.len() && !takes(m, k, item) {
        lemma_slot_from(m, item, k + 1);
    }
}

proof fn lemma_total_update(counts: Seq<NumProfiles>, k: int, c: NumProfiles)
    requires
        0 <= k < counts.len(),
    ensures
        total(counts.update(k, c)) == total(counts) - counts[k] + c,
    decreases counts.len(),
{
    let after = counts.update(k, c);
    if k == counts.len() - 1 {
        assert(after.drop_last() =~= counts.drop_last());
    } else {
        lemma_total_update(counts.drop_last(), k, c);
        assert(after.drop_last() =~= counts.drop_last().update(k, c));
    }
}

proof fn lemma_counted_total<T>(m: DistModel<T>, k: int, item: T)
    requires
        0 <= k < m.counts.len(),
        m.counts[k] < NumProfiles::MAX,
    ensures
        total(counted(m, k, item).counts) == total(m.counts) + 1,
{
    lemma_total_update(m.counts, k, counted_once_more(m.counts[k]));
}

proof fn lemma_bubbled_total<T>(m: DistModel<T>)
    requires
        m.counts.len() > 0,
    ensures
        total(bubbled(m).counts) == total(m.counts),
{
    lemma_last_max(m.counts);
    let k = last_max(m.counts);
    lemma_total_update(m.counts, 0, m.counts[k]);
    lemma_total_update(m.counts.update(0, m.counts[k]), k, m.counts[0]);
}

/// After an observation the most frequent item is in bucket 0.
pub proof fn law_front_is_most_frequent<T: PartialEq>(m: DistModel<T>, item: T)
    requires
        m.items.len() == m.counts.len(),
        forall|i: int| 0 <= i < m.counts.len() ==> #[trigger] m.counts[i] <= m.counts[0],
    ensures
        forall|i: int|
            0 <= i < m.counts.len() ==> #[trigger] observed(m, item).counts[i] <= observed(
                m,
                item,
            ).counts[0],
{
    if m.counts.len() > 0 {
        lemma_slot_from(m, item, 1);
        let wide = DistModel { boxed: true, ..m };
        if takes(m, 0, item) {
            lemma_last_max(counted(m, 0, item).counts);
        } else if let Some(k) = slot_from(m, item, 1) {
            lemma_last_max(counted(wide, k, item).counts);
        }
    }
}

/// The items are in the first `n` buckets, and the others are empty.
pub open spec fn packed<T>(m: DistModel<T>, n: int) -> bool {
    &&& m.items.len() == m.counts.len()
    &&& 0 <= n <= m.items.len()
    &&& forall|i: int| 0 <= i < m.items.len() ==> (#[trigger] m.items[i] is Some <==> i < n)
    &&& forall|i: int| 0 <= i < m.counts.len() ==> (#[trigger] m.counts[i] > 0 <==> i < n)
}

/// Observing keeps the occupied buckets in front of the empty ones.
pub proof fn law_observation_keeps_buckets_packed<T: PartialEq>(m: DistModel<T>, item: T, n: int)
    requires
        packed(m, n),
    ensures
        packed(observed(m, item), n) || packed(observed(m, item), n + 1),
{
    if m.counts.len() > 0 {
        let wide = DistModel { boxed: true, ..m };
        if takes(m, 0, item) {
            lemma_last_max(counted(m, 0, item).counts);
            assert(packed(counted(m, 0, item), if n == 0 { 1 } else { n }));
            lemma_bubbled_packed(counted(m, 0, item), if n == 0 { 1 } else { n });
        } else {
            lemma_slot_from(m, item, 1);
            lemma_slot_before_empty(m, item, 1, n);
            if let Some(k) = slot_from(m, item, 1) {
                let now = if k < n { n } else { n + 1 };
                assert(packed(counted(wide, k, item), now));
                lemma_bubbled_packed(counted(wide, k, item), now);
            }
        }
    }
}

/// The first bucket that takes an item is no later than the first empty one.
proof fn lemma_slot_before_empty<T: PartialEq>(m: DistModel<T>, item: T, k: int, n: int)
    requires
        packed(m, n),
        0 <= k <= n,
    ensures
        slot_from(m, item, k) matches Some(j) ==> j <= n,
    decreases m.counts.len() - k,
{
    if k < m.counts.len() && !takes(m, k, item) {
        lemma_slot_before_empty(m, item, k + 1, n);
    }
}

proof fn lemma_bubbled_packed<T>(m: DistModel<T>, n: int)
    requires
        packed(m, n),
        n > 0,
    ensures
        packed(bubbled(m), n),
{
    lemma_last_max(m.counts);
    assert(m.counts[0] > 0);
    assert(m.counts[last_max(m.counts)] > 0);
    assert(m.items[0] is Some);
    assert(m.items[last_max(m.counts)] is Some);
}

/// A stable observation moves nothing: every occupied bucket keeps its item and its count, so an
/// index that was reported stays valid. An item that was not known yet lands in the first free
/// bucket, so the number of buckets that were occupied at some point tells from an index alone
/// whether the item was known then.
pub proof fn law_stable_buckets_stay<T, F: Fn(T, T) -> bool>(
    m: DistModel<T>,
    after: DistModel<T>,
    matches: F,
    item: T,
    r: StableBucket,
    n: int,
)
    requires
        packed(m, n),
        stably_observed(m, after, matches, item, r),
    ensures
        forall|i: int| 0 <= i < n ==> #[trigger] after.items[i] == m.items[i],
        forall|i: int| 0 <= i < n ==> #[trigger] after.counts[i] == m.counts[i],
        match r {
            StableBucket::Existing(k) => k < n && packed(after, n),
            StableBucket::Inserted(k) => k == n && packed(after, n + 1),
            StableBucket::Full => n == m.counts.len() && packed(after, n),
        },
{
    match r {
        StableBucket::Inserted(k) => {
            if k > n {
                assert(m.items[n] is Some);
            }
        },
        StableBucket::Full => {
            if n < m.counts.len() {
                assert(m.items[n] is Some);
            }
        },
        _ => {},
    }
}

/// What `==` has to be for the buckets to tell items apart: it does not matter which of two items
/// is asked, and what is equal to the same item is equal.
pub open spec fn is_equality<T: PartialEq>() -> bool {
    &&& forall|a: T, b: T| #[trigger] a.eq_spec(&b) ==> b.eq_spec(&a)
    &&& forall|a: T, b: T, c: T|
        #[trigger] a.eq_spec(&b) && #[trigger] b.eq_spec(&c) ==> a.eq_spec(&c)
}

/// Whether bucket `i` holds `item`.
pub open spec fn holds<T: PartialEq>(m: DistModel<T>, i: int, item: T) -> bool {
    0 <= i < m.items.len() && (m.items[i] matches Some(held) && held.eq_spec(&item))
}

/// No two buckets hold the same item.
pub open spec fn distinct<T: PartialEq>(m: DistModel<T>) -> bool {
    forall|i: int, j: int|
        #![trigger m.items[i], m.items[j]]
        0 <= i < m.items.len() && 0 <= j < m.items.len() && i != j ==> !(m.items[i] matches Some(
            held,
        ) && holds(m, j, held))
}

/// How often `item` was observed, as far as the buckets say.
pub open spec fn count_of<T: PartialEq>(m: DistModel<T>, item: T) -> NumProfiles {
    if exists|i: int| holds(m, i, item) {
        m.counts[choose|i: int| holds(m, i, item)]
    } else {
        0
    }
}

/// Only one bucket says how often an item was observed.
proof fn lemma_count_of<T: PartialEq>(m: DistModel<T>, i: int, item: T)
    requires
        is_equality::<T>(),
        distinct(m),
        holds(m, i, item),
    ensures
        count_of(m, item) == m.counts[i],
{
    let j = choose|j: int| holds(m, j, item);
    assert(holds(m, j, item));
    if i != j {
        let a = m.items[i].unwrap();
        let b = m.items[j].unwrap();
        assert(a.eq_spec(&item));
        assert(b.eq_spec(&item));
        assert(item.eq_spec(&a));
        assert(b.eq_spec(&a));
        assert(holds(m, j, a));
    }
}

/// Whether `after` says of every item what `m` says, except that `item` was observed once more.
pub open spec fn one_more<T: PartialEq>(m: DistModel<T>, after: DistModel<T>, item: T) -> bool {
    forall|x: T| #[trigger]
        count_of(after, x) == if item.eq_spec(&x) {
            counted_once_more(count_of(m, x))
        } else {
            count_of(m, x)
        }
}

/// Counting an item in the first bucket that takes it.
proof fn lemma_counted<T: PartialEq>(m: DistModel<T>, k: int, item: T, n: int)
    requires
        is_equality::<T>(),
        packed(m, n),
        distinct(m),
        0 <= k < m.counts.len(),
        takes(m, k, item),
        forall|i: int| 0 <= i < k ==> !#[trigger] takes(m, i, item),
    ensures
        distinct(counted(m, k, item)),
        one_more(m, counted(m, k, item), item),
{
    let after = counted(m, k, item);
    assert(k <= n) by {
        if n < k {
            assert(m.counts[n] == 0);
            assert(takes(m, n, item));
        }
    }
    // No other bucket holds the item.
    assert forall|j: int| j != k implies !#[trigger] holds(m, j, item) by {
        if holds(m, j, item) {
            assert(takes(m, j, item));
            assert(m.items[j] is Some);
            assert(m.counts[k] > 0);
            let a = m.items[j].unwrap();
            let b = m.items[k].unwrap();
            assert(b.eq_spec(&item) && item.eq_spec(&a));
            assert(holds(m, k, a));
        }
    }
    assert forall|i: int, j: int|
        #![trigger after.items[i], after.items[j]]
        0 <= i < after.items.len() && 0 <= j < after.items.len() && i != j implies !(
    after.items[i] matches Some(held) && holds(after, j, held)) by {
        if let Some(held) = after.items[i] {
            if holds(after, j, held) {
                if i == k {
                    assert(m.items[j] == after.items[j]);
                    assert(holds(m, j, item));
                } else if j == k {
                    assert(m.items[i] == after.items[i]);
                    assert(item.eq_spec(&held) && held.eq_spec(&item));
                    assert(holds(m, i, item));
                } else {
                    assert(m.items[i] == after.items[i] && m.items[j] == after.items[j]);
                    assert(holds(m, j, held));
                }
            }
        }
    }
    assert forall|x: T| #[trigger]
        count_of(after, x) == if item.eq_spec(&x) {
            counted_once_more(count_of(m, x))
        } else {
            count_of(m, x)
        } by {
        if item.eq_spec(&x) {
            assert(holds(after, k, x));
            lemma_count_of(after, k, x);
            if m.counts[k] == 0 {
                assert forall|j: int| !#[trigger] holds(m, j, x) by {
                    if holds(m, j, x) {
                        let a = m.items[j].unwrap();
                        assert(a.eq_spec(&x) && x.eq_spec(&item));
                        assert(holds(m, j, item));
                    }
                }
            } else {
                let b = m.items[k].unwrap();
                assert(b.eq_spec(&item) && item.eq_spec(&x));
                assert(holds(m, k, x));
                lemma_count_of(m, k, x);
            }
        } else {
            assert forall|j: int| #[trigger] holds(m, j, x) == holds(after, j, x) by {
                if j == k && holds(m, j, x) {
                    let b = m.items[k].unwrap();
                    assert(m.counts[k] > 0);
                    assert(b.eq_spec(&item));
                    assert(item.eq_spec(&b) && b.eq_spec(&x));
                }
            }
            if exists|j: int| holds(m, j, x) {
                let j = choose|j: int| holds(m, j, x);
                assert(holds(after, j, x));
                assert(j != k);
                lemma_count_of(m, j, x);
                lemma_count_of(after, j, x);
            } else {
                assert forall|j: int| !#[trigger] holds(after, j, x) by {
                    assert(holds(m, j, x) == holds(after, j, x));
                }
            }
        }
    }
}

/// Moving the most frequent item to the front changes nothing but the order.
proof fn lemma_bubbled<T: PartialEq>(m: DistModel<T>)
    requires
        is_equality::<T>(),
        distinct(m),
        m.items.len() == m.counts.len(),
        m.counts.len() > 0,
    ensures
        distinct(bubbled(m)),
        forall|x: T| #[trigger] count_of(bubbled(m), x) == count_of(m, x),
{
    let k = last_max(m.counts);
    lemma_last_max(m.counts);
    let after = bubbled(m);
    let at = |i: int|
        if i == 0 {
            k
        } else if i == k {
            0
        } else {
            i
        };
    assert forall|i: int| 0 <= i < m.items.len() implies #[trigger] after.items[i] == m.items[at(
        i,
    )] && after.counts[i] == m.counts[at(i)] by {}
    assert forall|i: int, x: T| #[trigger] holds(after, i, x) == holds(m, at(i), x) by {
        if 0 <= i < m.items.len() {
            assert(after.items[i] == m.items[at(i)]);
        }
    }
    assert forall|i: int, j: int|
        #![trigger after.items[i], after.items[j]]
        0 <= i < after.items.len() && 0 <= j < after.items.len() && i != j implies !(
    after.items[i] matches Some(held) && holds(after, j, held)) by {
        if let Some(held) = after.items[i] {
            assert(holds(after, j, held) == holds(m, at(j), held));
            assert(m.items[at(i)] == Some(held));
            assert(at(i) != at(j));
            if holds(m, at(j), held) {
                assert(m.items[at(j)] is Some);
            }
        }
    }
    assert forall|x: T| #[trigger] count_of(after, x) == count_of(m, x) by {
        if exists|i: int| holds(m, i, x) {
            let i = choose|i: int| holds(m, i, x);
            assert(at(at(i)) == i);
            assert(holds(after, at(i), x));
            lemma_count_of(m, i, x);
            lemma_count_of(after, at(i), x);
        } else {
            assert forall|i: int| !#[trigger] holds(after, i, x) by {
                assert(holds(after, i, x) == holds(m, at(i), x));
            }
        }
    }
}

/// An observation is counted for the item that was observed and for no other. If the item has a
/// bucket or one is free, exactly its own count grows; otherwise only the number of observations
/// that did not fit grows. The buckets keep holding distinct items.
pub proof fn law_only_the_observed_item_is_counted<T: PartialEq>(
    m: DistModel<T>,
    item: T,
    n: int,
)
    requires
        is_equality::<T>(),
        packed(m, n),
        distinct(m),
    ensures
        distinct(observed(m, item)),
        n < m.counts.len() || (exists|i: int| holds(m, i, item)) ==> {
            &&& one_more(m, observed(m, item), item)
            &&& observed(m, item).other == m.other
        },
        n == m.counts.len() && !(exists|i: int| holds(m, i, item)) ==> {
            &&& observed(m, item).items == m.items
            &&& observed(m, item).counts == m.counts
            &&& observed(m, item).other == counted_once_more(m.other)
        },
{
    let len = m.counts.len();
    if len > 0 {
        let wide = DistModel { boxed: true, ..m };
        lemma_slot_from(m, item, 1);
        assert forall|i: int| 0 <= i < len implies #[trigger] takes(m, i, item) == (n <= i || holds(
            m,
            i,
            item,
        )) by {
            assert(m.counts[i] > 0 <==> i < n);
        }
        if takes(m, 0, item) {
            lemma_counted(m, 0, item, n);
            lemma_bubbled(counted(m, 0, item));
        } else {
            match slot_from(m, item, 1) {
                Some(k) => {
                    assert(packed(wide, n));
                    assert forall|i: int, x: T| #[trigger] holds(wide, i, x) == holds(
                        m,
                        i,
                        x,
                    ) by {}
                    assert(distinct(wide)) by {
                        assert forall|i: int, j: int|
                            #![trigger wide.items[i], wide.items[j]]
                            0 <= i < wide.items.len() && 0 <= j < wide.items.len() && i
                                != j implies !(wide.items[i] matches Some(held) && holds(
                            wide,
                            j,
                            held,
                        )) by {
                            assert(m.items[i] == wide.items[i] && m.items[j] == wide.items[j]);
                        }
                    }
                    assert forall|i: int| 0 <= i < k implies !#[trigger] takes(wide, i, item) by {
                        assert(!takes(m, i, item));
                    }
                    assert(takes(wide, k, item));
                    lemma_counted(wide, k, item, n);
                    lemma_bubbled(counted(wide, k, item));
                    assert forall|x: T| #[trigger] count_of(wide, x) == count_of(m, x) by {
                        if exists|i: int| holds(m, i, x) {
                            let i = choose|i: int| holds(m, i, x);
                            assert(holds(wide, i, x));
                            lemma_count_of(m, i, x);
                            lemma_count_of(wide, i, x);
                        } else {
                            assert(forall|i: int| !holds(wide, i, x));
                        }
                    }
                    let after = bubbled(counted(wide, k, item));
                    assert forall|x: T| #[trigger]
                        count_of(after, x) == if item.eq_spec(&x) {
                            counted_once_more(count_of(m, x))
                        } else {
                            count_of(m, x)
                        } by {
                        assert(count_of(counted(wide, k, item), x) == if item.eq_spec(&x) {
                            counted_once_more(count_of(wide, x))
                        } else {
                            count_of(wide, x)
                        });
                    }
                    if n == len {
                        assert(holds(m, k, item));
                    }
                },
                None => {
                    if n < len {
                        assert(takes(m, n, item));
                    }
                    if exists|i: int| holds(m, i, item) {
                        let i = choose|i: int| holds(m, i, item);
                        assert(takes(m, i, item));
                    }
                    assert(distinct(missed(wide))) by {
                        assert forall|i: int, j: int|
                            #![trigger wide.items[i], wide.items[j]]
                            0 <= i < wide.items.len() && 0 <= j < wide.items.len() && i
                                != j implies !(wide.items[i] matches Some(held) && holds(
                            missed(wide),
                            j,
                            held,
                        )) by {
                            if let Some(held) = wide.items[i] {
                                assert(m.items[i] == wide.items[i] && m.items[j] == wide.items[j]);
                                assert(holds(missed(wide), j, held) == holds(m, j, held));
                            }
                        }
                    }
                },
            }
        }
    }
}

/// Before anything is observed, no bucket is occupied.
pub proof fn law_nothing_is_recorded_at_first<T: PartialEq>(m: DistModel<T>)
    requires
        m.items == Seq::new(m.counts.len(), |i: int| None::<T>),
        m.counts == Seq::new(m.counts.len(), |i: int| 0u8),
    ensures
        packed(m, 0),
        distinct(m),
        total(m.counts) == 0,
{
    lemma_total_zero(m.counts);
}

proof fn lemma_total_zero(counts: Seq<NumProfiles>)
    requires
        forall|i: int| 0 <= i < counts.len() ==> #[trigger] counts[i] == 0,
    ensures
        total(counts) == 0,
    decreases counts.len(),
{
    if counts.len() > 0 {
        lemma_total_zero(counts.drop_last());
    }
}

/// The first counts add up to no more than all of them.
proof fn lemma_total_take(counts: Seq<NumProfiles>, k: int)
    requires
        0 <= k <= counts.len(),
    ensures
        total(counts.take(k)) <= total(counts),
    decreases counts.len(),
{
    if k == counts.len() {
        assert(counts.take(k) =~= counts);
    } else {
        lemma_total_take(counts.drop_last(), k);
        assert(counts.drop_last().take(k) =~= counts.take(k));
    }
}

/// However often something is observed, no bucket counts past its limit. So the number of
/// observations fits wherever the number of buckets times that limit does.
pub proof fn law_total_is_bounded(counts: Seq<NumProfiles>)
    ensures
        total(counts) <= NumProfiles::MAX * counts.len(),
    decreases counts.len(),
{
    if counts.len() > 0 {
        law_total_is_bounded(counts.drop_last());
    }
}

/// Retaining bucket 0 leaves a distribution as if only that bucket's item had ever been observed,
/// as often as it was. Doing so again changes nothing.
pub proof fn law_only_the_primary_is_retained<T>(m: DistModel<T>)
    requires
        m.items.len() == m.counts.len(),
        m.counts.len() > 0,
    ensures
        retained(m).items[0] == m.items[0],
        retained(m).counts[0] == m.counts[0],
        forall|i: int|
            0 < i < m.counts.len() ==> retained(m).counts[i] == 0 && #[trigger] retained(
                m,
            ).items[i] is None,
        retained(m).other == 0,
        !retained(m).boxed,
        total(retained(m).counts) + retained(m).other == m.counts[0],
        retained(retained(m)) == retained(m),
        kind_of(retained(m)) == if m.counts[0] > 0 {
            DistributionKind::Monomorphic
        } else {
            DistributionKind::Empty
        },
{
    let after = retained(m);
    let zero = after.counts.update(0, 0);
    assert(zero =~= Seq::new(m.counts.len(), |i: int| 0u8));
    lemma_total_zero(zero);
    lemma_total_update(after.counts, 0, 0);
    assert(retained(after).items =~= after.items);
    assert(retained(after).counts =~= after.counts);
}

/// What a summary says of a distribution: nothing, one type, or several, and with several
/// whether one of them makes up at least three quarters of all samples. It is megamorphic exactly
/// when something fit no bucket.
pub proof fn law_kinds<T>(m: DistModel<T>)
    requires
        m.counts.len() > 0,
    ensures
        ({
            let skewed = 4 * m.counts[0] >= 3 * (total(m.counts) + m.other);
            let several = m.counts.len() > 1 && m.counts[1] > 0;
            &&& kind_of(m) is Empty <==> m.other == 0 && m.counts[0] == 0
            &&& kind_of(m) is Monomorphic <==> m.other == 0 && m.counts[0] > 0 && !several
            &&& kind_of(m) is SkewedPolymorphic <==> m.other == 0 && m.counts[0] > 0 && several
                && skewed
            &&& kind_of(m) is Polymorphic <==> m.other == 0 && m.counts[0] > 0 && several
                && !skewed
            &&& kind_of(m) is SkewedMegamorphic <==> m.other > 0 && skewed
            &&& kind_of(m) is Megamorphic <==> m.other > 0 && !skewed
        }),
{
}

} // verus!
