use ringstore::{
    slot_bytes, Arith, Categorical, ContextSurface, MicroCentroids, Quant, Real, Ring, Slot,
    SlotKind, StepBuffer, VecAccum, Welford,
};

#[derive(Clone, Copy, Debug, PartialEq, PartialOrd)]
struct Double(f64);

impl Arith for Double {}

impl Real for Double {
    fn from_count(n: u64) -> Self {
        Double(n as f64)
    }
    fn highest() -> Self {
        Double(f64::INFINITY)
    }
    fn lowest() -> Self {
        Double(f64::NEG_INFINITY)
    }
    fn plus(self, other: Self) -> Self {
        Double(self.0 + other.0)
    }
    fn minus(self, other: Self) -> Self {
        Double(self.0 - other.0)
    }
    fn times(self, other: Self) -> Self {
        Double(self.0 * other.0)
    }
    fn over(self, other: Self) -> Self {
        Double(self.0 / other.0)
    }
    fn less(self, other: Self) -> bool {
        self.0 < other.0
    }
    fn at_most(self, other: Self) -> bool {
        self.0 <= other.0
    }
    fn sqrt(self) -> Self {
        Double(self.0.sqrt())
    }
    fn ln(self) -> Self {
        Double(self.0.ln())
    }
    fn rounded(self) -> Self {
        Double(self.0 as f32 as f64)
    }
}

fn d(x: f64) -> Double {
    Double(x)
}

fn s(x: f32) -> Double {
    Double(x as f64)
}

fn batch(xs: &[f64]) -> Welford<Double> {
    let mut w = Welford::new();
    for &x in xs {
        w.push(d(x));
    }
    w
}

#[test]
fn welford_merge_matches_single_pass() {
    let xs: Vec<f64> = (0..1000).map(|i| (i as f64 * 0.37).sin() * 100.0).collect();
    let whole = batch(&xs);

    // Split at an uneven point; consolidation never gets equal children.
    let mut left = batch(&xs[..377]);
    let right = batch(&xs[377..]);
    left.merge(&right);

    assert_eq!(left.count(), whole.count());
    assert!((left.mean().unwrap().0 - whole.mean().unwrap().0).abs() < 1e-9);
    assert!((left.variance().unwrap().0 - whole.variance().unwrap().0).abs() < 1e-6);
    assert_eq!(left.min(), whole.min());
    assert_eq!(left.max(), whole.max());
}

#[test]
fn welford_merge_is_associative_across_a_ladder() {
    let xs: Vec<f64> = (0..600).map(|i| i as f64 % 17.0).collect();
    let whole = batch(&xs);

    // Ten children of sixty, merged pairwise up the ladder.
    let mut level: Vec<Welford<Double>> = xs.chunks(60).map(batch).collect();
    while level.len() > 1 {
        let mut next = Vec::new();
        for pair in level.chunks(2) {
            let mut a = pair[0].clone();
            if let Some(b) = pair.get(1) {
                a.merge(b);
            }
            next.push(a);
        }
        level = next;
    }

    assert_eq!(level[0].count(), whole.count());
    assert!((level[0].mean().unwrap().0 - whole.mean().unwrap().0).abs() < 1e-9);
    assert!((level[0].variance().unwrap().0 - whole.variance().unwrap().0).abs() < 1e-9);
}

#[test]
fn empty_welford_reports_nothing_rather_than_zero() {
    let w: Welford<Double> = Welford::new();
    assert_eq!(w.mean(), None);
    assert_eq!(w.variance(), None);
    assert_eq!(w.min(), None);
    assert_eq!(w.max(), None);
}

#[test]
fn centroid_merge_equals_batch_mean() {
    let dim = 16;
    let vs: Vec<Vec<Double>> = (0..500)
        .map(|i| {
            (0..dim)
                .map(|d| s(((i * 31 + d * 7) % 97) as f32 / 97.0))
                .collect()
        })
        .collect();

    let mut whole = VecAccum::new(dim);
    for v in &vs {
        whole.push(v);
    }

    let mut a = VecAccum::new(dim);
    for v in &vs[..123] {
        a.push(v);
    }
    let mut b = VecAccum::new(dim);
    for v in &vs[123..] {
        b.push(v);
    }
    a.merge(&b);

    assert_eq!(a.count(), whole.count());
    let (ca, cw) = (a.centroid().unwrap(), whole.centroid().unwrap());
    for (x, y) in ca.iter().zip(&cw) {
        assert!((x.0 - y.0).abs() < 1e-6, "{x:?} vs {y:?}");
    }
}

#[test]
fn vector_variance_is_non_negative_on_identical_input() {
    let mut a = VecAccum::new(8);
    for _ in 0..50 {
        a.push(&[s(0.5); 8]);
    }
    let v = a.variance().unwrap().0;
    assert!((0.0..1e-9).contains(&v), "{v}");
}

#[test]
fn drift_is_zero_against_own_centroid() {
    let mut a = VecAccum::new(4);
    a.push(&[s(1.0), s(2.0), s(3.0), s(4.0)]);
    a.push(&[s(3.0), s(2.0), s(1.0), s(0.0)]);
    let c = a.centroid().unwrap();
    assert!(a.drift_from(&c).unwrap().0 < 1e-6);
    assert!(a.drift_from(&[s(0.0), s(0.0), s(0.0), s(0.0)]).unwrap().0 > 0.0);
}

#[test]
fn categorical_survives_consolidation() {
    let mut a = Categorical::new(4);
    let mut b = Categorical::new(4);
    for _ in 0..30 {
        a.push(0);
    }
    for _ in 0..10 {
        a.push(1);
    }
    for _ in 0..50 {
        b.push(1);
    }
    a.merge(&b);

    assert_eq!(a.total(), 90);
    assert_eq!(a.counts(), &[30, 60, 0, 0]);
    assert_eq!(a.dominant(), Some(1));
}

#[test]
fn entropy_is_zero_when_certain_and_ln_k_when_uniform() {
    let mut certain = Categorical::new(4);
    for _ in 0..10 {
        certain.push(2);
    }
    assert!(certain.entropy::<Double>().unwrap().0.abs() < 1e-12);

    let mut uniform = Categorical::new(4);
    for i in 0..40 {
        uniform.push(i % 4);
    }
    assert!((uniform.entropy::<Double>().unwrap().0 - 4f64.ln()).abs() < 1e-12);

    assert_eq!(Categorical::new(4).entropy::<Double>(), None);
}

#[test]
fn micro_centroids_stay_bounded_and_conserve_the_total() {
    let dim = 8;
    let mut m = MicroCentroids::new(4, dim);
    let mut reference = VecAccum::new(dim);

    for i in 0..200 {
        let v: Vec<Double> = (0..dim)
            .map(|d| s(((i % 5) as f32) + d as f32 * 0.01))
            .collect();
        m.push(&v);
        reference.push(&v);
    }

    assert!(m.len() <= 4, "codebook grew to {}", m.len());
    let total = m.total();
    assert_eq!(total.count(), reference.count());
    for (x, y) in total
        .centroid()
        .unwrap()
        .iter()
        .zip(&reference.centroid().unwrap())
    {
        assert!((x.0 - y.0).abs() < 1e-5, "{x:?} vs {y:?}");
    }
}

#[test]
fn micro_centroids_separate_well_spaced_groups() {
    let dim = 2;
    let mut m = MicroCentroids::new(2, dim);
    for _ in 0..20 {
        m.push(&[s(0.0), s(0.0)]);
        m.push(&[s(100.0), s(100.0)]);
    }
    assert_eq!(m.len(), 2);
    let mut xs: Vec<f64> = m.centroids().iter().map(|(_, c)| c[0].0).collect();
    xs.sort_by(|a, b| a.partial_cmp(b).unwrap());
    assert!(xs[0].abs() < 1e-3 && (xs[1] - 100.0).abs() < 1e-3, "{xs:?}");
}

#[test]
fn ring_overwrites_oldest_and_never_grows() {
    let mut r = Ring::new(4);
    for i in 0..10u64 {
        let mut w = Welford::new();
        w.push(d(i as f64));
        r.push(Some(Slot::Scalar(w)));
    }

    assert_eq!(r.capacity(), 4);
    assert_eq!(r.written(), 10);
    assert_eq!(r.iter_oldest_first().len(), 4);

    // The four retained slots are 6, 7, 8, 9.
    let means: Vec<f64> = r
        .iter_oldest_first()
        .into_iter()
        .flatten()
        .map(|s| match s {
            Slot::Scalar(w) => w.mean().unwrap().0,
            _ => unreachable!(),
        })
        .collect();
    assert_eq!(means, vec![6.0, 7.0, 8.0, 9.0]);

    match r.newest().unwrap() {
        Slot::Scalar(w) => assert_eq!(w.mean(), Some(d(9.0))),
        _ => unreachable!(),
    }
}

#[test]
fn ring_reports_only_what_it_has_before_wrapping() {
    let mut r = Ring::new(8);
    for i in 0..3u64 {
        let mut w = Welford::new();
        w.push(d(i as f64));
        r.push(Some(Slot::Scalar(w)));
    }
    assert_eq!(r.iter_oldest_first().len(), 3);
    assert_eq!(r.consolidate().unwrap().count(), 3);
}

#[test]
fn consolidating_a_ring_equals_merging_its_samples() {
    let mut r = Ring::new(6);
    let mut whole = Welford::new();
    for i in 0..6 {
        let mut w = Welford::new();
        for j in 0..10 {
            let x = (i * 10 + j) as f64;
            w.push(d(x));
            whole.push(d(x));
        }
        r.push(Some(Slot::Scalar(w)));
    }

    match r.consolidate().unwrap() {
        Slot::Scalar(w) => {
            assert_eq!(w.count(), whole.count());
            assert!((w.mean().unwrap().0 - whole.mean().unwrap().0).abs() < 1e-9);
            assert!((w.variance().unwrap().0 - whole.variance().unwrap().0).abs() < 1e-6);
        }
        _ => unreachable!(),
    }
}

#[test]
fn unknown_slots_are_visible_rather_than_counted_as_zero() {
    let mut r = Ring::new(4);
    let mut w = Welford::new();
    w.push(d(1.0));
    r.push(Some(Slot::Scalar(w)));
    r.push(None);
    r.push(None);
    r.push(None);

    // Three of four slots unknown: fine at xff 0.9, not at 0.5.
    assert!(!r.is_unknown(d(0.9)));
    assert!(r.is_unknown(d(0.5)));

    // Consolidation ignores the gaps rather than treating them as zeros.
    assert_eq!(r.consolidate().unwrap().count(), 1);
    assert!(Ring::new(4).is_unknown(d(0.99)));
}

#[test]
fn footprint_follows_from_the_declaration() {
    // One gauge, kept for ten minutes, six hours, seven days and a year.
    let scalar = slot_bytes(SlotKind::Scalar, 0, 0, Quant::F32, 0);
    let threat = (600 + 2160 + 10080 + 8760) * scalar;
    assert_eq!(scalar, 40);
    assert_eq!(threat, 864_000);

    // Quantisation is what makes a vector ladder affordable.
    let f32_slot = slot_bytes(SlotKind::Vector, 768, 0, Quant::F32, 0);
    let int8_slot = slot_bytes(SlotKind::Vector, 768, 0, Quant::Int8, 0);
    assert_eq!(f32_slot, 3088);
    assert_eq!(int8_slot, 784);
    assert!(f32_slot > 3 * int8_slot);
}

#[test]
fn lib_sigma_declines_to_answer_against_a_flat_baseline() {
    assert_eq!(ContextSurface::sigma_from(d(0.84), d(0.31), d(0.0)), None);
    let s = ContextSurface::sigma_from(d(0.84), d(0.31), d(0.01)).unwrap().0;
    assert!((s - 5.3).abs() < 1e-9, "{s}");
}

#[test]
fn step_buffer_collects_then_yields_a_slot() {
    let mut b = StepBuffer::new();
    b.observe("threat", d(0.5));
    b.observe("threat", d(0.9));
    b.observe("latency", d(12.0));

    let t = b.take("threat").unwrap();
    assert_eq!(t.count(), 2);
    assert!((t.mean().unwrap().0 - 0.7).abs() < 1e-12);
    assert!(b.take("threat").is_none());
    assert_eq!(b.take("latency").unwrap().count(), 1);
}
