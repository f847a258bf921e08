use ringstore::{
    Arith, ArchiveSpec, DeclError, Declaration, Grant, Observation, Quant, Real, Refusal,
    SignalSpec, Store, HEADER_BYTES,
};

#[derive(Clone, Copy, Debug, PartialEq, PartialOrd)]
struct Double(f64);

impl Arith for Double {}

impl Real for Double {
    fn from_count(n: u64) -> Self {
        Double(n as f64)
    }
    fn highest() -> Self {
        Double(f64::INFINITY)
    }
    fn lowest() -> Self {
        Double(f64::NEG_INFINITY)
    }
    fn plus(self, other: Self) -> Self {
        Double(self.0 + other.0)
    }
    fn minus(self, other: Self) -> Self {
        Double(self.0 - other.0)
    }
    fn times(self, other: Self) -> Self {
        Double(self.0 * other.0)
    }
    fn over(self, other: Self) -> Self {
        Double(self.0 / other.0)
    }
    fn less(self, other: Self) -> bool {
        self.0 < other.0
    }
    fn at_most(self, other: Self) -> bool {
        self.0 <= other.0
    }
    fn sqrt(self) -> Self {
        Double(self.0.sqrt())
    }
    fn ln(self) -> Self {
        Double(self.0.ln())
    }
    fn rounded(self) -> Self {
        Double(self.0 as f32 as f64)
    }
}

fn num(x: f64) -> Double {
    Double(x)
}

/// One signal, 1-second steps: per-second for 10s, per-10-seconds for 100s.
fn decl() -> Declaration<Double> {
    Declaration::new(
        1,
        vec![SignalSpec::scalar(
            "threat",
            vec![ArchiveSpec::new(1, 10), ArchiveSpec::new(10, 10)],
        )],
    )
}

fn ingest(s: &mut Store<Double>, from: u64, to: u64, value: f64) {
    for t in from..=to {
        s.observe("threat", t, Observation::Scalar(num(value))).unwrap();
    }
}


#[test]
fn a_ladder_that_does_not_divide_is_rejected() {
    let d: Declaration<Double> = Declaration::new(
        1,
        vec![SignalSpec::scalar(
            "x",
            vec![ArchiveSpec::new(2, 4), ArchiveSpec::new(3, 4)],
        )],
    );
    assert_eq!(
        d.validate(),
        Err(DeclError::NotALadder {
            signal: "x".into(),
            finer: 2,
            coarser: 3
        })
    );

    // Coarser must also actually be coarser.
    let flat: Declaration<Double> = Declaration::new(
        1,
        vec![SignalSpec::scalar(
            "x",
            vec![ArchiveSpec::new(10, 4), ArchiveSpec::new(10, 4)],
        )],
    );
    assert!(matches!(flat.validate(), Err(DeclError::NotALadder { .. })));

    assert!(decl().validate().is_ok());
}

#[test]
fn footprint_is_fixed_by_the_declaration_and_ingest_does_not_move_it() {
    let mut s = Store::new(decl()).unwrap();
    let before = s.footprint();
    assert_eq!(before, HEADER_BYTES + (10 + 10) * 40);

    ingest(&mut s, 0, 5000, 1.0);
    s.flush("threat").unwrap();

    assert_eq!(s.footprint(), before);
}


#[test]
fn a_coarse_slot_is_the_merge_of_the_fine_slots_beneath_it() {
    let mut s = Store::new(decl()).unwrap();
    for t in 0..60u64 {
        s.observe("threat", t, Observation::Scalar(num(t as f64)))
            .unwrap();
    }
    s.flush("threat").unwrap();

    let g = Grant::all(s.declaration());
    let coarse = s.read_at("threat", 10, &g).unwrap();

    // Six closed slots covering steps 0..59; mean of 0..59 is 29.5.
    assert_eq!(coarse.observations, 60);
    assert!((coarse.mean.unwrap().0 - 29.5).abs() < 1e-9);
    assert_eq!(coarse.min, Some(num(0.0)));
    assert_eq!(coarse.max, Some(num(59.0)));
    assert_eq!(coarse.span_secs, 60);
}

/// Past its retention the fine
/// resolution is **gone**, not withheld — while the coarse summary of the
/// same moment survives.
#[test]
fn expired_fine_detail_ceases_to_exist_while_its_coarse_summary_survives() {
    let mut s = Store::new(decl()).unwrap();

    // One distinctive spike, then a long quiet stretch that overruns the
    // 10-second fine archive many times over.
    s.observe("threat", 0, Observation::Scalar(num(1000.0))).unwrap();
    ingest(&mut s, 1, 60, 1.0);
    s.flush("threat").unwrap();

    let g = Grant::all(s.declaration());

    // The fine archive retains 10 seconds. The spike is not in it — not
    // filtered from the answer, absent from the store.
    let fine = s.read_at("threat", 1, &g).unwrap();
    assert_eq!(fine.span_secs, 10);
    assert_eq!(fine.max, Some(num(1.0)));
    assert_eq!(fine.min, Some(num(1.0)));

    // The coarse archive still carries the spike, consolidated.
    let coarse = s.read_at("threat", 10, &g).unwrap();
    assert_eq!(coarse.max, Some(num(1000.0)));

    // And a fully granted read cannot surface it at fine resolution either.
    let r = s.read("threat", &g).unwrap();
    assert_eq!(r.window(1).unwrap().max, Some(num(1.0)));
    assert_eq!(r.window(10).unwrap().max, Some(num(1000.0)));
}

#[test]
fn a_gap_reads_unknown_rather_than_zero() {
    let mut s = Store::new(decl()).unwrap();
    s.observe("threat", 0, Observation::Scalar(num(7.0))).unwrap();
    // Nothing for twenty seconds, which is twice the fine retention.
    s.observe("threat", 20, Observation::Scalar(num(7.0))).unwrap();

    let g = Grant::all(s.declaration());
    let fine = s.read_at("threat", 1, &g).unwrap();
    assert!(fine.unknown);
    assert_eq!(fine.mean, None);
    assert_ne!(fine.mean, Some(num(0.0)));
}


#[test]
fn a_reader_with_no_grant_reads_nothing() {
    let mut s = Store::new(decl()).unwrap();
    ingest(&mut s, 0, 60, 3.0);
    s.flush("threat").unwrap();

    let none = Grant::none();
    assert!(none.is_empty());

    let r = s.read("threat", &none).unwrap();
    assert!(r.windows.is_empty());
    assert_eq!(r.now, None);
    assert_eq!(r.withheld, vec![1, 10]);

    assert_eq!(
        s.read_at("threat", 10, &none),
        Err(Refusal::NotGranted {
            requested: 10,
            granted: vec![]
        })
    );
}

#[test]
fn a_coarse_grant_answers_the_trend_and_refuses_the_detail() {
    let mut s = Store::new(decl()).unwrap();
    ingest(&mut s, 0, 60, 3.0);
    s.flush("threat").unwrap();

    let g = Grant::coarser_than(s.declaration(), 10);
    assert_eq!(g.granted(), vec![10]);

    let r = s.read("threat", &g).unwrap();
    assert_eq!(r.windows.len(), 1);
    assert_eq!(r.windows[0].resolution_secs, 10);
    assert!((r.windows[0].mean.unwrap().0 - 3.0).abs() < 1e-9);

    // The per-second archive is named as withheld — a reader may know the
    // store keeps it — but never valued.
    assert_eq!(r.withheld, vec![1]);
    assert!(r.window(1).is_none());

    assert_eq!(
        s.read_at("threat", 1, &g),
        Err(Refusal::NotGranted {
            requested: 1,
            granted: vec![10]
        })
    );
}

#[test]
fn the_current_value_is_gated_with_the_resolution_it_belongs_to() {
    let mut s = Store::new(decl()).unwrap();
    ingest(&mut s, 0, 60, 42.0);
    s.flush("threat").unwrap();

    // Denied per-second history, so not handed the per-second sample either.
    let coarse = Grant::coarser_than(s.declaration(), 10);
    assert_eq!(s.read("threat", &coarse).unwrap().now, None);

    let all = Grant::all(s.declaration());
    assert_eq!(s.read("threat", &all).unwrap().now, Some(num(42.0)));
}

#[test]
fn an_undeclared_resolution_is_a_different_answer_from_an_ungranted_one() {
    let mut s = Store::new(decl()).unwrap();
    ingest(&mut s, 0, 20, 1.0);
    s.flush("threat").unwrap();

    let g = Grant::all(s.declaration());
    assert_eq!(
        s.read_at("threat", 60, &g),
        Err(Refusal::NotDeclared {
            requested: 60,
            offered: vec![1, 10]
        })
    );
    assert_eq!(
        s.read("nope", &g),
        Err(Refusal::UnknownSignal("nope".into()))
    );
}


#[test]
fn a_quote_survives_the_consolidation_of_what_it_quoted() {
    let mut s = Store::new(decl()).unwrap();
    s.observe("threat", 0, Observation::Scalar(num(1000.0))).unwrap();
    ingest(&mut s, 1, 9, 1000.0);
    s.flush("threat").unwrap();

    let g = Grant::all(s.declaration());
    let quote = s.quote("threat", &g, 9).unwrap();
    let frozen = quote.clone();
    assert_eq!(quote.reading.window(1).unwrap().max, Some(num(1000.0)));

    // Run long enough that the fine archive has been overwritten entirely.
    ingest(&mut s, 10, 200, 1.0);
    s.flush("threat").unwrap();

    let later = s.read("threat", &g).unwrap();
    assert_eq!(later.window(1).unwrap().max, Some(num(1.0)));
    assert_ne!(later, quote.reading);

    // The record carries the values, not a reference, so it is unchanged.
    assert_eq!(quote, frozen);
    assert_eq!(quote.taken_at, 9);
}

#[test]
fn store_sigma_declines_to_answer_against_a_flat_baseline() {
    let mut s = Store::new(decl()).unwrap();
    ingest(&mut s, 0, 60, 5.0);
    s.flush("threat").unwrap();

    let g = Grant::all(s.declaration());
    // A constant series has no spread, so there is no honest sigma.
    assert_eq!(s.read("threat", &g).unwrap().sigma(), None);

    let mut v = Store::new(decl()).unwrap();
    for t in 0..60u64 {
        v.observe("threat", t, Observation::Scalar(num((t % 7) as f64)))
            .unwrap();
    }
    v.flush("threat").unwrap();
    assert!(v.read("threat", &g).unwrap().sigma().is_some());
}


#[test]
fn categorical_and_vector_signals_ingest_and_gate_the_same_way() {
    let d: Declaration<Double> = Declaration::new(
        1,
        vec![
            SignalSpec::categorical(
                "outcome",
                4,
                vec![ArchiveSpec::new(1, 4), ArchiveSpec::new(4, 4)],
            ),
            SignalSpec::vector(
                "intent",
                3,
                Quant::Int8,
                vec![ArchiveSpec::new(1, 4), ArchiveSpec::new(4, 4)],
            ),
        ],
    );
    let mut s = Store::new(d).unwrap();

    for t in 0..8u64 {
        s.observe("outcome", t, Observation::Class((t % 2) as usize))
            .unwrap();
        s.observe("intent", t, Observation::Vector(vec![num(t as f64), num(0.0), num(1.0)]))
            .unwrap();
    }
    s.flush("outcome").unwrap();
    s.flush("intent").unwrap();

    let g = Grant::coarser_than(s.declaration(), 4);
    let r = s.read("outcome", &g).unwrap();
    assert_eq!(r.withheld, vec![1]);
    assert_eq!(r.windows.len(), 1);
    // Non-scalar kinds carry no mean, but the observation count is real.
    assert_eq!(r.windows[0].mean, None);
    assert_eq!(r.windows[0].observations, 8);

    assert_eq!(
        s.read_at("intent", 1, &g),
        Err(Refusal::NotGranted {
            requested: 1,
            granted: vec![4]
        })
    );

    assert!(matches!(
        s.observe("outcome", 9, Observation::Class(9)),
        Err(Refusal::WrongKind { .. })
    ));
    assert!(matches!(
        s.observe("intent", 9, Observation::Scalar(num(1.0))),
        Err(Refusal::WrongKind { .. })
    ));
}
