//! Exact values, in fixed point.

use ringstore::{
    checked_slot_bytes, slot_bytes, Categorical, ContextSurface, Fixed, MicroCentroids, Quant, Real,
    Ring, Slot, SlotKind, StepBuffer, VecAccum, Welford,
};

const UNIT: i64 = 1_048_576;

fn n(x: i64) -> Fixed {
    Fixed { raw: x * UNIT }
}

fn half(x: i64) -> Fixed {
    Fixed { raw: x * UNIT / 2 }
}

fn welford(xs: &[i64]) -> Welford<Fixed> {
    let mut w = Welford::new();
    for &x in xs {
        w.push(n(x));
    }
    w
}

fn scalar_slot(xs: &[i64]) -> Option<Slot<Fixed>> {
    Some(Slot::Scalar(welford(xs)))
}

#[test]
fn fixed_sums_and_differences_are_exact_and_stop_at_the_ends() {
    assert_eq!(Fixed::from_count(3), n(3));
    assert_eq!(n(3).plus(n(-5)), n(-2));
    assert_eq!(n(3).minus(n(5)), n(-2));
    assert_eq!(Fixed::highest().plus(n(1)), Fixed::highest());
    assert_eq!(Fixed::lowest().minus(n(1)), Fixed::lowest());
    assert_eq!(Fixed::from_count(u64::MAX), Fixed::highest());
    assert_eq!(n(7).rounded(), n(7));
}

#[test]
fn fixed_products_and_quotients_drop_what_lies_behind_the_last_digit() {
    assert_eq!(half(3).times(n(2)), n(3));
    assert_eq!(half(-3).times(n(2)), n(-3));
    assert_eq!(half(-3).times(n(-2)), n(3));
    assert_eq!(Fixed { raw: 1 }.times(half(1)), n(0));
    assert_eq!(n(1).over(n(3)).raw, 349_525);
    assert_eq!(n(-1).over(n(3)).raw, -349_525);
    assert_eq!(n(6).over(n(-3)), n(-2));
    assert_eq!(n(0).over(n(0)), n(0));
    assert_eq!(n(1).over(n(0)), Fixed::highest());
    assert_eq!(n(-1).over(n(0)), Fixed::lowest());
}

#[test]
fn fixed_numbers_compare_by_size() {
    assert!(n(-1).less(n(0)));
    assert!(!n(0).less(n(0)));
    assert!(n(0).at_most(n(0)));
    assert!(!n(1).at_most(n(0)));
}

#[test]
fn fixed_roots_are_whole_in_raw_units() {
    assert_eq!(n(9).sqrt(), n(3));
    assert_eq!(n(2).sqrt().raw, 1_482_910);
    assert_eq!(n(0).sqrt(), n(0));
    assert_eq!(n(-4).sqrt(), n(0));
}

#[test]
fn fixed_logarithms_are_natural() {
    assert_eq!(n(1).ln(), n(0));
    assert_eq!(n(2).ln().raw, 726_817);
    assert_eq!(half(1).ln().raw, -726_817);
    assert!((n(10).ln().raw - 2_414_435).abs() <= 3);
    assert!((n(3).ln().raw - 1_151_978).abs() <= 3);
    assert_eq!(n(0).ln(), Fixed::lowest());
}

#[test]
fn welford_gives_mean_variance_and_extremes() {
    let w = welford(&[2, 4, 6]);
    assert_eq!(w.count(), 3);
    assert_eq!(w.mean(), Some(n(4)));
    assert_eq!(w.variance(), Some(n(8).over(n(3))));
    assert_eq!(w.min(), Some(n(2)));
    assert_eq!(w.max(), Some(n(6)));
}

#[test]
fn welford_merge_by_hand() {
    let mut a = welford(&[2, 4]);
    a.merge(&welford(&[6]));
    assert_eq!(a, welford(&[2, 4, 6]));

    let mut nothing: Welford<Fixed> = Welford::default();
    nothing.merge(&Welford::new());
    assert_eq!(nothing, Welford::new());
    nothing.merge(&a);
    assert_eq!(nothing, a);
    a.merge(&Welford::new());
    assert_eq!(a, nothing);
}

#[test]
fn merging_rounds_by_a_few_units_and_keeps_count_and_extremes() {
    let near = |a: Option<Fixed>, b: Option<Fixed>| {
        assert!((a.unwrap().raw - b.unwrap().raw).abs() <= 64);
    };
    let xs = [1, 2, 7, 1, 5, 11, 3];
    for cut in 1..xs.len() {
        let mut a = welford(&xs[..cut]);
        a.merge(&welford(&xs[cut..]));
        let whole = welford(&xs);
        assert_eq!((a.count(), a.min(), a.max()), (7, Some(n(1)), Some(n(11))));
        near(a.mean(), whole.mean());
        near(a.variance(), whole.variance());

        let cloud = |part: &[i64]| {
            let mut c: VecAccum<Fixed> = VecAccum::new(2);
            for &x in part {
                c.push(&[n(x).over(n(3)), n(1).over(n(x))]);
            }
            c
        };
        let mut c = cloud(&xs[..cut]);
        c.merge(&cloud(&xs[cut..]));
        let all = cloud(&xs);
        assert_eq!((c.count(), c.dim()), (7, 2));
        for i in 0..2 {
            near(Some(c.centroid().unwrap()[i]), Some(all.centroid().unwrap()[i]));
        }
        near(c.variance(), all.variance());
    }
}

#[test]
fn a_defaulted_welford_takes_its_minimum_from_the_first_sample() {
    let mut w: Welford<Fixed> = Welford::default();
    w.push(n(5));
    assert_eq!(w.min(), Some(n(5)));
    assert_eq!(w.max(), Some(n(5)));
}

#[test]
fn class_counters_count_and_merge_in_any_order() {
    let mut a = Categorical::new(3);
    a.push(2);
    a.push(0);
    a.push(2);
    let mut b = Categorical::new(3);
    b.push(1);
    let mut ab = a.clone();
    ab.merge(&b);
    let mut ba = b.clone();
    ba.merge(&a);
    assert_eq!(ab, ba);
    assert_eq!(ab.counts(), &[1, 1, 2]);
    assert_eq!(ab.total(), 4);
    assert_eq!(ab.dominant(), Some(2));
}

#[test]
fn ties_resolve_to_the_lowest_class_and_nothing_has_no_dominant() {
    let mut c = Categorical::new(4);
    assert_eq!(c.dominant(), None);
    assert_eq!(c.entropy::<Fixed>(), None);
    c.push(3);
    c.push(1);
    assert_eq!(c.dominant(), Some(1));
}

#[test]
fn entropy_of_two_equal_classes() {
    let mut c = Categorical::new(3);
    c.push(0);
    c.push(2);
    let h: Fixed = c.entropy().unwrap();
    // Twice a half of the logarithm of two, each half rounded down.
    assert_eq!(h.raw, 726_816);

    let mut certain = Categorical::new(3);
    certain.push(1);
    certain.push(1);
    assert_eq!(certain.entropy::<Fixed>(), Some(n(0)));
}

#[test]
fn entropy_lies_between_certainty_and_all_classes_alike() {
    for counts in [[5, 0, 0], [4, 1, 0], [3, 1, 1], [2, 2, 1]] {
        let mut c = Categorical::new(3);
        for (class, &times) in counts.iter().enumerate() {
            for _ in 0..times {
                c.push(class);
            }
        }
        let h: Fixed = c.entropy().unwrap();
        assert!(n(0).at_most(h));
        assert!(h.less(n(3).ln()));
    }
}

#[test]
fn vector_statistics_by_hand() {
    let mut a: VecAccum<Fixed> = VecAccum::new(2);
    assert_eq!(a.centroid(), None);
    assert_eq!(a.variance(), None);
    assert_eq!(a.drift_from(&[n(0), n(0)]), None);
    a.push(&[n(1), n(2)]);
    a.push(&[n(3), n(6)]);
    assert_eq!(a.dim(), 2);
    assert_eq!(a.count(), 2);
    assert_eq!(a.centroid(), Some(vec![n(2), n(4)]));
    assert_eq!(a.variance(), Some(n(5)));
    assert_eq!(a.drift_from(&[n(2), n(4)]), Some(n(0)));
    assert_eq!(a.drift_from(&[n(2), n(1)]), Some(n(3)));
    assert_eq!(a.drift_from(&[n(5), n(0)]), Some(n(5)));
}

#[test]
fn the_nearest_centroids_are_paired() {
    let mut m: MicroCentroids<Fixed> = MicroCentroids::new(2, 1);
    assert!(m.is_empty());
    m.push(&[n(0)]);
    m.push(&[n(10)]);
    assert_eq!(m.len(), 2);
    m.push(&[n(1)]);
    assert_eq!(m.len(), 2);
    assert_eq!(
        m.centroids(),
        vec![(1, vec![n(10)]), (2, vec![half(1)])]
    );

    let mut other: MicroCentroids<Fixed> = MicroCentroids::new(2, 1);
    other.push(&[n(13)]);
    m.merge(&other);
    assert_eq!(m.len(), 2);
    assert_eq!(m.total().count(), 4);
    assert_eq!(m.total().centroid(), Some(vec![n(6)]));
}

#[test]
fn of_equally_near_pairs_the_first_is_joined() {
    let mut m: MicroCentroids<Fixed> = MicroCentroids::new(3, 1);
    for x in [4, 0, 2, 6] {
        m.push(&[n(x)]);
    }
    // 4 and 2 come before 4 and 6, and before 0 and 2.
    assert_eq!(
        m.centroids(),
        vec![(1, vec![n(0)]), (1, vec![n(6)]), (2, vec![n(3)])]
    );
}

#[test]
fn a_codebook_holds_all_that_fits_and_otherwise_as_many_as_it_may() {
    let filled = |k: usize, xs: &[i64]| {
        let mut m: MicroCentroids<Fixed> = MicroCentroids::new(k, 1);
        for &x in xs {
            m.push(&[n(x)]);
        }
        m
    };
    for pushed in 0..8 {
        let xs: Vec<i64> = (0..pushed).map(|x| x * x).collect();
        assert_eq!(filled(4, &xs).len(), xs.len().min(4));
    }
    // What fits is left as it came.
    let mut m = filled(4, &[9, 1]);
    m.merge(&filled(4, &[4, 0]));
    let each: Vec<(u64, Vec<Fixed>)> = [9, 1, 4, 0].iter().map(|&x| (1, vec![n(x)])).collect();
    assert_eq!(m.centroids(), each);
    m.merge(&filled(4, &[20]));
    assert_eq!(m.len(), 4);
    assert_eq!((m.total().count(), m.total().centroid()), (5, Some(vec![n(34).over(n(5))])));
}

#[test]
fn a_ring_holds_the_last_slots_oldest_first() {
    let mut r: Ring<Fixed> = Ring::new(2);
    assert_eq!(r.capacity(), 2);
    assert!(r.newest().is_none());
    assert!(r.is_unknown(n(1)));
    assert!(r.consolidate().is_none());
    r.push(scalar_slot(&[1]));
    r.push(scalar_slot(&[2, 2]));
    r.push(scalar_slot(&[3, 3, 3]));
    assert_eq!(r.written(), 3);
    assert_eq!(r.capacity(), 2);
    let counts: Vec<u64> = r
        .iter_oldest_first()
        .into_iter()
        .map(|s| s.as_ref().map_or(0, |s| s.count()))
        .collect();
    assert_eq!(counts, vec![2, 3]);
    assert_eq!(r.newest().unwrap().count(), 3);
    assert_eq!(r.consolidate().unwrap().count(), 5);
}

#[test]
fn a_ring_is_unknown_past_its_tolerance_and_not_at_it() {
    let mut r: Ring<Fixed> = Ring::new(2);
    r.push(None);
    r.push(scalar_slot(&[4]));
    assert!(!r.is_unknown(half(1)));
    assert!(r.is_unknown(n(2).over(n(5))));
    r.push(None);
    r.push(None);
    assert!(r.is_unknown(half(1)));
    assert!(!r.is_unknown(n(1)));
    assert!(r.newest().is_none());
    assert!(r.consolidate().is_none());
}

#[test]
fn slots_of_every_kind_count_their_observations() {
    let mut c = Categorical::new(2);
    c.push(1);
    let mut v: VecAccum<Fixed> = VecAccum::new(1);
    v.push(&[n(1)]);
    let mut m: MicroCentroids<Fixed> = MicroCentroids::new(1, 1);
    m.push(&[n(1)]);
    m.push(&[n(2)]);
    let mut a: Slot<Fixed> = Slot::Categorical(c.clone());
    a.merge(&Slot::Categorical(c));
    assert_eq!(a.count(), 2);
    let mut b = Slot::Vector(v.clone());
    b.merge(&Slot::Vector(v));
    assert_eq!(b.count(), 2);
    let mut d = Slot::Clusters(m.clone());
    d.merge(&Slot::Clusters(m));
    assert_eq!(d.count(), 4);
}

#[test]
fn slots_merge_with_their_like_only() {
    let vector = |dim: usize| Slot::Vector(VecAccum::<Fixed>::new(dim));
    let book = |k: usize, dim: usize| Slot::Clusters(MicroCentroids::<Fixed>::new(k, dim));
    let classes = |n: usize| Slot::<Fixed>::Categorical(Categorical::new(n));
    let scalar = Slot::Scalar(welford(&[1]));
    assert!(scalar.can_merge(&scalar));
    assert!(!scalar.can_merge(&vector(1)));
    assert!(vector(2).can_merge(&vector(2)));
    assert!(!vector(2).can_merge(&vector(3)));
    assert!(classes(2).can_merge(&classes(2)));
    assert!(!classes(2).can_merge(&classes(3)));
    assert!(book(1, 2).can_merge(&book(4, 2)));
    assert!(!book(1, 2).can_merge(&book(1, 3)));
    assert!(!book(1, 2).can_merge(&vector(2)));

    let mut r: Ring<Fixed> = Ring::new(2);
    assert!(r.can_consolidate());
    r.push(scalar_slot(&[1]));
    r.push(Some(vector(1)));
    assert!(!r.can_consolidate());
    r.push(None);
    assert!(r.can_consolidate());
    r.push(scalar_slot(&[2]));
    assert!(r.can_consolidate());
}

#[test]
fn class_counts_that_cannot_be_counted_are_noticed() {
    let mut c = Categorical::new(2);
    c.push(1);
    assert_eq!(c.checked_total(), Some(1));
    // Doubling a counter reaches the end of what it can hold.
    let mut doublings = 0;
    loop {
        let same = c.clone();
        if !c.can_merge(&same) {
            break;
        }
        c.merge(&same);
        doublings += 1;
    }
    assert_eq!(doublings, 63);
    let mut other = Categorical::new(2);
    other.push(0);
    while other.counts()[0] <= u64::MAX / 2 {
        let same = other.clone();
        other.merge(&same);
    }
    assert!(c.can_merge(&other));
    c.merge(&other);
    assert_eq!(c.checked_total(), None);
}

#[test]
fn slot_sizes_by_hand() {
    assert_eq!(slot_bytes(SlotKind::Scalar, 9, 9, Quant::F32, 9), 40);
    assert_eq!(slot_bytes(SlotKind::Categorical, 9, 4, Quant::F32, 9), 32);
    assert_eq!(slot_bytes(SlotKind::Vector, 10, 9, Quant::F32, 9), 56);
    assert_eq!(slot_bytes(SlotKind::Vector, 10, 9, Quant::F16, 9), 36);
    assert_eq!(slot_bytes(SlotKind::Vector, 10, 9, Quant::Int8, 9), 26);
    assert_eq!(slot_bytes(SlotKind::Clusters, 10, 9, Quant::Int8, 3), 78);
    let huge = usize::MAX;
    assert_eq!(checked_slot_bytes(SlotKind::Clusters, 10, 9, Quant::Int8, 3), Some(78));
    assert_eq!(checked_slot_bytes(SlotKind::Scalar, huge, huge, Quant::F32, huge), Some(40));
    assert_eq!(checked_slot_bytes(SlotKind::Categorical, 1, huge, Quant::F32, 1), None);
    assert_eq!(checked_slot_bytes(SlotKind::Vector, huge, 1, Quant::Int8, 1), None);
    assert_eq!(checked_slot_bytes(SlotKind::Clusters, 1, 1, Quant::Int8, huge), None);
    assert_eq!(Quant::F32.bytes(), 4);
    assert_eq!(Quant::F16.bytes(), 2);
    assert_eq!(Quant::Int8.bytes(), 1);
}

#[test]
fn a_deviation_is_in_standard_deviations() {
    assert_eq!(ContextSurface::sigma_from(n(8), n(4), n(4)), Some(n(2)));
    assert_eq!(ContextSurface::sigma_from(n(1), n(4), n(9)), Some(n(-1)));
    assert_eq!(ContextSurface::sigma_from(n(8), n(4), n(0)), None);

    let surface: ContextSurface<Fixed> = ContextSurface::default();
    assert_eq!(surface.now, None);
    assert!(surface.windows.is_empty());
    assert_eq!(surface.baseline, None);
    assert_eq!(surface.sigma, None);
    assert!(!surface.unknown);
}

#[test]
fn a_step_buffer_keeps_signals_apart() {
    let mut b: StepBuffer<Fixed> = StepBuffer::new();
    b.observe("a", n(1));
    b.observe("b", n(7));
    b.observe("a", n(3));
    let copy = b.clone();
    assert_eq!(b.get("a"), Some(&welford(&[1, 3])));
    assert_eq!(b.get("c"), None);
    let mut names = b.names();
    names.sort();
    assert_eq!(names, vec!["a".to_string(), "b".to_string()]);
    assert_eq!(b.take("c"), None);
    assert_eq!(b.take("a"), Some(welford(&[1, 3])));
    assert_eq!(b.take("a"), None);
    assert_eq!(b.get("a"), None);
    assert_eq!(b.names(), vec!["b".to_string()]);
    assert_eq!(b.take("b"), Some(welford(&[7])));
    assert!(b.names().is_empty());
    let mut copy = copy;
    assert_eq!(copy.take("b"), Some(welford(&[7])));
}
