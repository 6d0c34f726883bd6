use zjit::distribution::{
    Coverage, Distribution, DistributionKind, DistributionSummary, StableBucket,
};

/// The share of observations that is covered.
fn ratio(coverage: Coverage) -> f64 {
    if coverage.num_seen == 0 {
        0.0
    } else {
        (coverage.covered as f64) / (coverage.num_seen as f64)
    }
}

#[test]
fn start_empty() {
    let dist = Distribution::<usize, 4>::new();
    assert_eq!(dist.other(), 0);
    assert!((0..4).all(|idx| dist.count(idx) == 0));
}

#[test]
fn monomorphic_distribution_stays_unboxed() {
    let mut dist = Distribution::<usize, 4>::new();
    dist.observe(10);
    dist.observe(10);
    assert!(dist.tail.is_none());
}

#[test]
fn observe_adds_record() {
    let mut dist = Distribution::<usize, 4>::new();
    dist.observe(10);
    assert_eq!(dist.bucket(0), 10);
    assert_eq!(dist.count(0), 1);
    assert_eq!(dist.other(), 0);
}

#[test]
fn observe_increments_record() {
    let mut dist = Distribution::<usize, 4>::new();
    dist.observe(10);
    dist.observe(10);
    assert_eq!(dist.bucket(0), 10);
    assert_eq!(dist.count(0), 2);
    assert_eq!(dist.other(), 0);
}

#[test]
fn observe_two() {
    let mut dist = Distribution::<usize, 4>::new();
    dist.observe(10);
    dist.observe(10);
    dist.observe(11);
    dist.observe(11);
    dist.observe(11);
    assert_eq!(dist.bucket(0), 11);
    assert_eq!(dist.count(0), 3);
    assert_eq!(dist.bucket(1), 10);
    assert_eq!(dist.count(1), 2);
    assert_eq!(dist.other(), 0);
}

#[test]
fn observe_with_max_increments_other() {
    let mut dist = Distribution::<usize, 0>::new();
    dist.observe(10);
    assert_eq!(dist.num_buckets_used(), 0);
    assert_eq!(dist.other(), 1);
}

#[test]
fn each_item_walks_buckets_in_order() {
    let mut dist = Distribution::<usize, 4>::new();
    dist.observe(10);
    dist.observe(10);
    dist.observe(11);
    assert_eq!(dist.each_item(), vec![10, 11]);
    dist.each_item_mut(|item| item + 100);
    assert_eq!(dist.each_item(), vec![110, 111]);
}

#[test]
fn observe_stable_reports_new_and_known_buckets() {
    let mut dist = Distribution::<usize, 4>::new();
    dist.observe(10);
    // A bucket that already exists is reported without being counted again.
    assert_eq!(dist.observe_stable(10, |a, b| a == b), StableBucket::Existing(0));
    assert_eq!(dist.count(0), 1);
    // New items land past the buckets that were occupied, which is how a caller tells
    // them apart from the ones the compiled code already knows about.
    assert_eq!(dist.observe_stable(11, |a, b| a == b), StableBucket::Inserted(1));
    assert_eq!(dist.observe_stable(11, |a, b| a == b), StableBucket::Existing(1));
    assert_eq!(dist.observe_stable(12, |a, b| a == b), StableBucket::Inserted(2));
}

#[test]
fn observe_stable_does_not_reorder_buckets() {
    let mut dist = Distribution::<usize, 4>::new();
    dist.observe(10);
    for _ in 0..10 {
        dist.observe_stable(11, |a, b| a == b);
    }
    // `observe` would have bubbled 11 to the front; a stable observation may not, or the
    // index it reported earlier would now name a different item.
    assert_eq!(dist.bucket(0), 10);
    assert_eq!(dist.bucket(1), 11);
    // Counts stay ordered, so DistributionSummary's invariant still holds.
    assert!(dist.count(0) >= dist.count(1));
}

#[test]
fn observe_stable_reports_full_without_recording() {
    let mut dist = Distribution::<usize, 2>::new();
    assert_eq!(dist.observe_stable(10, |a, b| a == b), StableBucket::Inserted(0));
    assert_eq!(dist.observe_stable(11, |a, b| a == b), StableBucket::Inserted(1));
    assert_eq!(dist.observe_stable(12, |a, b| a == b), StableBucket::Full);
    assert_eq!(dist.other(), 1);
    assert_eq!(dist.buckets(), [10, 11]);
}

#[test]
fn observe_stable_matches_with_the_given_predicate() {
    let mut dist = Distribution::<(usize, usize), 4>::new();
    dist.observe_stable((1, 100), |a, b| a.0 == b.0);
    // Equal under the predicate, different as a whole: still the same bucket.
    assert_eq!(dist.observe_stable((1, 999), |a, b| a.0 == b.0), StableBucket::Existing(0));
    assert_eq!(dist.bucket(0), (1, 100));
}

#[test]
fn observe_stable_leaves_a_monomorphic_distribution_unboxed() {
    let mut dist = Distribution::<usize, 8>::new();
    // The common case for an ivar fallback: the shape it keeps seeing is the one bucket 0
    // already holds, so the boxed tail is never allocated.
    assert_eq!(dist.observe_stable(10, |a, b| a == b), StableBucket::Inserted(0));
    for _ in 0..10 {
        assert_eq!(dist.observe_stable(10, |a, b| a == b), StableBucket::Existing(0));
    }
    assert!(dist.tail.is_none());
    assert_eq!(dist.heap_size(), 0);
    // A second shape is what pays for the tail.
    assert_eq!(dist.observe_stable(11, |a, b| a == b), StableBucket::Inserted(1));
    assert!(dist.tail.is_some());
}

#[test]
fn observe_stable_and_observe_agree_on_bucket_zero() {
    // `observe_stable` may run against a distribution the interpreter filled with
    // `observe`, so bucket 0 has to mean the same thing to both.
    let mut dist = Distribution::<usize, 8>::new();
    dist.observe(10);
    dist.observe(11);
    dist.observe(11);
    // 11 bubbled to the front.
    assert_eq!(dist.bucket(0), 11);
    assert_eq!(dist.observe_stable(11, |a, b| a == b), StableBucket::Existing(0));
    assert_eq!(dist.observe_stable(10, |a, b| a == b), StableBucket::Existing(1));
    assert_eq!(dist.observe_stable(12, |a, b| a == b), StableBucket::Inserted(2));
}

#[test]
fn empty_distribution_returns_empty_summary() {
    let dist = Distribution::<usize, 4>::new();
    let summary = DistributionSummary::new(&dist);
    assert_eq!(summary.kind, DistributionKind::Empty);
}

#[test]
fn monomorphic_distribution_returns_monomorphic_summary() {
    let mut dist = Distribution::<usize, 4>::new();
    dist.observe(10);
    dist.observe(10);
    let summary = DistributionSummary::new(&dist);
    assert_eq!(summary.kind, DistributionKind::Monomorphic);
    assert_eq!(summary.buckets[0], 10);
}

#[test]
fn polymorphic_distribution_returns_polymorphic_summary() {
    let mut dist = Distribution::<usize, 4>::new();
    dist.observe(10);
    dist.observe(11);
    dist.observe(11);
    let summary = DistributionSummary::new(&dist);
    assert_eq!(summary.kind, DistributionKind::Polymorphic);
    assert_eq!(summary.buckets[0], 11);
    assert_eq!(summary.buckets[1], 10);
}

#[test]
fn skewed_polymorphic_distribution_returns_skewed_polymorphic_summary() {
    let mut dist = Distribution::<usize, 4>::new();
    dist.observe(10);
    dist.observe(11);
    dist.observe(11);
    dist.observe(11);
    let summary = DistributionSummary::new(&dist);
    assert_eq!(summary.kind, DistributionKind::SkewedPolymorphic);
    assert_eq!(summary.buckets[0], 11);
    assert_eq!(summary.buckets[1], 10);
}

#[test]
fn megamorphic_distribution_returns_megamorphic_summary() {
    let mut dist = Distribution::<usize, 4>::new();
    dist.observe(10);
    dist.observe(11);
    dist.observe(12);
    dist.observe(13);
    dist.observe(14);
    dist.observe(11);
    let summary = DistributionSummary::new(&dist);
    assert_eq!(summary.kind, DistributionKind::Megamorphic);
    assert_eq!(summary.buckets[0], 11);
}

#[test]
fn skewed_megamorphic_distribution_returns_skewed_megamorphic_summary() {
    let mut dist = Distribution::<usize, 4>::new();
    dist.observe(10);
    dist.observe(11);
    dist.observe(11);
    dist.observe(12);
    dist.observe(12);
    dist.observe(12);
    dist.observe(12);
    dist.observe(12);
    dist.observe(12);
    dist.observe(12);
    dist.observe(12);
    dist.observe(12);
    dist.observe(12);
    dist.observe(12);
    dist.observe(12);
    dist.observe(12);
    dist.observe(12);
    dist.observe(12);
    dist.observe(13);
    dist.observe(14);
    let summary = DistributionSummary::new(&dist);
    assert_eq!(summary.kind, DistributionKind::SkewedMegamorphic);
    assert_eq!(summary.buckets[0], 12);
}

#[test]
fn summary_exposes_counts_and_num_seen() {
    let mut dist = Distribution::<usize, 2>::new();
    dist.observe(10);
    dist.observe(10);
    dist.observe(11);
    dist.observe(12); // does not fit; counted in other
    let summary = DistributionSummary::new(&dist);
    assert_eq!(summary.bucket_count(0), 2);
    assert_eq!(summary.bucket_count(1), 1);
    assert_eq!(summary.num_seen(), 4);
}

#[test]
fn coverage_counts_only_kept_buckets() {
    let mut dist = Distribution::<usize, 2>::new();
    dist.observe(10);
    dist.observe(10);
    dist.observe(11);
    dist.observe(12); // does not fit; counted in other
    let summary = DistributionSummary::new(&dist);
    assert_eq!(ratio(summary.coverage(|_, _| true)), 0.75);
    assert_eq!(ratio(summary.coverage(|idx, _| idx == 0)), 0.5);
    assert_eq!(ratio(summary.coverage(|_, item| item == 11)), 0.25);
    assert_eq!(ratio(summary.coverage(|_, _| false)), 0.0);
}

#[test]
fn empty_summary_has_no_coverage() {
    let summary = DistributionSummary::<usize, 4>::empty();
    assert_eq!(summary.num_seen(), 0);
    assert_eq!(ratio(summary.coverage(|_, _| true)), 0.0);
}

#[test]
fn counts_saturate() {
    let mut dist = Distribution::<usize, 2>::new();
    for _ in 0..300 {
        dist.observe(10);
    }
    assert_eq!(dist.count(0), 255);
    dist.observe(11);
    for _ in 0..300 {
        dist.observe(12);
    }
    assert_eq!(dist.other(), 255);
    assert_eq!(dist.num_observed(), 255 + 1 + 255);
}

#[test]
fn front_bucket_holds_the_most_frequent_item() {
    let mut dist = Distribution::<usize, 3>::new();
    for item in [1, 2, 3, 3, 2, 2] {
        dist.observe(item);
    }
    assert_eq!(dist.bucket(0), 2);
    assert_eq!(dist.count(0), 3);
    assert_eq!(dist.num_buckets_used(), 3);
    assert_eq!(dist.num_observed(), 6);
    assert_eq!(dist.counts()[0], 3);
}

#[test]
fn ties_go_to_the_newcomer() {
    let mut dist = Distribution::<usize, 3>::new();
    dist.observe(1);
    dist.observe(2);
    assert_eq!(dist.each_item(), vec![2, 1]);
}

#[test]
fn retain_primary_drops_the_tail() {
    let mut dist = Distribution::<usize, 4>::new();
    dist.observe(10);
    dist.observe(10);
    dist.observe(11);
    assert!(dist.heap_size() > 0);
    dist.retain_primary();
    assert_eq!(dist.each_item(), vec![10]);
    assert_eq!(dist.count(0), 2);
    assert_eq!(dist.heap_size(), 0);
}

#[test]
fn made_up_summaries() {
    let mono = DistributionSummary::<usize, 4>::monomorphic(7);
    assert!(mono.is_monomorphic());
    assert_eq!(mono.bucket(0), 7);
    let mega = DistributionSummary::<usize, 4>::megamorphic();
    assert!(mega.is_megamorphic());
    assert!(!mega.is_skewed_megamorphic());
    let variants = DistributionSummary::<usize, 4>::monomorphic_variants(&[7, 8]);
    assert!(variants.is_monomorphic());
    assert_eq!(variants.buckets(), &[7, 8, 0, 0]);
    assert_eq!(DistributionSummary::<usize, 4>::empty().kind, DistributionKind::Empty);
}

#[test]
fn stable_observations_move_nothing() {
    let mut dist = Distribution::<usize, 3>::new();
    for item in [5, 5, 6] {
        dist.observe(item);
    }
    let known = dist.num_buckets_used();
    // An index below the number of known buckets names an item that was known.
    assert_eq!(dist.observe_stable(6, |a, b| a == b), StableBucket::Existing(1));
    assert_eq!(dist.observe_stable(7, |a, b| a == b), StableBucket::Inserted(known));
    assert_eq!(dist.observe_stable(8, |a, b| a == b), StableBucket::Full);
    assert_eq!(dist.buckets(), [5, 6, 7]);
    assert_eq!(dist.counts(), [2, 1, 1]);
}

/// The count of an item, wherever its bucket is.
fn count_of(dist: &Distribution<usize, 3>, item: usize) -> u8 {
    let used = dist.num_buckets_used();
    (0..used).find(|idx| dist.bucket(*idx) == item).map_or(0, |idx| dist.count(idx))
}

#[test]
fn only_the_observed_item_is_counted() {
    let mut dist = Distribution::<usize, 3>::new();
    for item in [4, 5, 5, 6, 4, 4, 7, 6, 7] {
        let before: Vec<u8> = (4..8).map(|known| count_of(&dist, known)).collect();
        let (other, seen) = (dist.other(), dist.num_observed());
        dist.observe(item);
        for known in 4..8 {
            let fits = known == item && item != 7;
            let grown = before[known - 4] + if fits { 1 } else { 0 };
            assert_eq!(count_of(&dist, known), grown);
        }
        assert_eq!(dist.other(), other + if item == 7 { 1 } else { 0 });
        assert_eq!(dist.num_observed(), seen + 1);
        let mut items = dist.each_item();
        let len = items.len();
        items.sort();
        items.dedup();
        assert_eq!(items.len(), len);
    }
}

#[test]
fn a_struct_with_derived_equality_is_observed() {
    #[derive(Clone, Copy, Debug, Default, PartialEq)]
    struct Class(u64);
    let mut dist = Distribution::<Class, 2>::new();
    for class in [1, 2, 2, 3] {
        dist.observe(Class(class));
    }
    assert_eq!(dist.each_item(), vec![Class(2), Class(1)]);
    assert_eq!((dist.count(0), dist.count(1), dist.other()), (2, 1, 1));
}

#[test]
fn only_the_primary_is_retained() {
    let mut dist = Distribution::<usize, 3>::new();
    for item in [4, 5, 5, 6, 7] {
        dist.observe(item);
    }
    for _ in 0..2 {
        dist.retain_primary();
        assert_eq!(dist.buckets(), [5, 0, 0]);
        assert_eq!(dist.counts(), [2, 0, 0]);
        assert_eq!(dist.other(), 0);
        assert_eq!(dist.num_observed(), 2);
        assert_eq!(dist.heap_size(), 0);
        assert!(DistributionSummary::new(&dist).is_monomorphic());
    }
}
