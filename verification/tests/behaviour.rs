//! The store at its edges, in fixed point.

use ringstore::{
    ArchiveSpec, DeclError, Declaration, Fixed, Grant, Observation, Quant, Reading, Refusal,
    SignalSpec, SlotKind, Store, Window, HEADER_BYTES,
};

const UNIT: i64 = 1_048_576;

fn n(x: i64) -> Fixed {
    Fixed { raw: x * UNIT }
}

fn tenths(x: i64) -> Fixed {
    Fixed { raw: x * UNIT / 10 }
}

fn obs(x: i64) -> Observation<Fixed> {
    Observation::Scalar(n(x))
}

fn point(v: &[i64]) -> Observation<Fixed> {
    Observation::Vector(v.iter().map(|&x| n(x)).collect())
}

fn ladder() -> Vec<ArchiveSpec<Fixed>> {
    vec![ArchiveSpec::new(1, 10), ArchiveSpec::new(10, 10)]
}

fn scalar_store() -> Store<Fixed> {
    Store::new(Declaration::new(1, vec![SignalSpec::scalar("x", ladder())])).unwrap()
}

fn one(archives: Vec<ArchiveSpec<Fixed>>) -> Declaration<Fixed> {
    Declaration::new(1, vec![SignalSpec::scalar("x", archives)])
}

fn clusters(k: usize, dim: usize) -> SignalSpec<Fixed> {
    SignalSpec {
        name: "c".to_string(),
        kind: SlotKind::Clusters,
        classes: 0,
        dim,
        k,
        quant: Quant::F32,
        archives: vec![ArchiveSpec::new(1, 4), ArchiveSpec::new(2, 4)],
    }
}

fn all(s: &Store<Fixed>) -> Grant {
    Grant::all(s.declaration())
}

fn read(s: &Store<Fixed>, signal: &str) -> Reading<Fixed> {
    s.read(signal, &all(s)).unwrap()
}

fn fine(s: &Store<Fixed>, signal: &str) -> Window<Fixed> {
    s.read_at(signal, 1, &all(s)).unwrap()
}

// ------------------------------------------------------------ declaration

#[test]
fn every_fault_of_a_declaration_is_named() {
    let name = || "x".to_string();
    assert_eq!(
        Declaration::<Fixed>::new(0, vec![]).validate(),
        Err(DeclError::ZeroStep)
    );
    assert_eq!(one(vec![]).validate(), Err(DeclError::NoArchives(name())));
    assert_eq!(
        Declaration::new(1, vec![SignalSpec::categorical("x", 0, ladder())]).validate(),
        Err(DeclError::NoClasses(name()))
    );
    assert_eq!(
        Declaration::new(1, vec![SignalSpec::vector("x", 0, Quant::F32, ladder())]).validate(),
        Err(DeclError::NoDim(name()))
    );
    assert_eq!(
        one(vec![ArchiveSpec::new(0, 1)]).validate(),
        Err(DeclError::EmptyArchive(name()))
    );
    assert_eq!(
        one(vec![ArchiveSpec::new(1, 0)]).validate(),
        Err(DeclError::EmptyArchive(name()))
    );
    assert_eq!(
        one(vec![ArchiveSpec::new(1, 1).with_xff(tenths(11))]).validate(),
        Err(DeclError::BadXff(name()))
    );
    assert_eq!(
        one(vec![ArchiveSpec::new(1, 1).with_xff(tenths(-1))]).validate(),
        Err(DeclError::BadXff(name()))
    );
    assert_eq!(
        one(vec![ArchiveSpec::new(4, 1), ArchiveSpec::new(6, 1)]).validate(),
        Err(DeclError::NotALadder {
            signal: name(),
            finer: 4,
            coarser: 6
        })
    );
    assert_eq!(
        one(vec![
            ArchiveSpec::new(1, 1).with_xff(n(0)),
            ArchiveSpec::new(3, 1).with_xff(n(1))
        ])
        .validate(),
        Ok(())
    );
}

#[test]
fn the_first_fault_is_reported_and_a_faulty_store_is_not_made() {
    let d = Declaration::new(
        1,
        vec![
            SignalSpec::scalar("good", ladder()),
            SignalSpec::scalar("bad", vec![]),
            SignalSpec::categorical("worse", 0, ladder()),
        ],
    );
    assert_eq!(d.validate(), Err(DeclError::NoArchives("bad".to_string())));
    assert!(matches!(Store::new(d), Err(DeclError::NoArchives(_))));
}

#[test]
fn a_new_archive_tolerates_half() {
    let a: ArchiveSpec<Fixed> = ArchiveSpec::new(3, 7);
    assert_eq!(a.steps_per_slot, 3);
    assert_eq!(a.slots, 7);
    assert_eq!(a.xff.raw, UNIT / 2);
}

#[test]
fn resolutions_ascend_over_all_signals_and_for_each() {
    let d = Declaration::new(
        2,
        vec![
            SignalSpec::scalar("x", ladder()),
            SignalSpec::scalar("y", vec![ArchiveSpec::new(1, 1), ArchiveSpec::new(4, 1)]),
        ],
    );
    assert!(d.resolves());
    assert_eq!(d.resolutions(), vec![2, 8, 20]);
    assert_eq!(d.resolutions_of("y"), vec![2, 8]);
    assert!(d.resolutions_of("z").is_empty());
}

#[test]
fn what_cannot_be_counted_is_noticed() {
    let d = Declaration::new(
        u64::MAX,
        vec![
            SignalSpec::scalar("fits", vec![ArchiveSpec::<Fixed>::new(1, 1)]),
            SignalSpec::scalar("x", vec![ArchiveSpec::new(2, 1)]),
        ],
    );
    assert!(!d.resolves());
    assert!(d.resolves_of("fits"));
    assert!(d.resolves_of("unheard of"));
    assert!(!d.resolves_of("x"));
    let s = Store::new(d).unwrap();
    assert!(!s.can_read("x", &Grant::none()));
    assert!(!s.can_read_at("x", 1, &Grant::none()));
    assert!(s.can_read("fits", &Grant::none()));

    let huge = Declaration::new(
        1,
        vec![SignalSpec::vector(
            "v",
            usize::MAX,
            Quant::F32,
            vec![ArchiveSpec::<Fixed>::new(1, 1)],
        )],
    );
    assert_eq!(huge.checked_footprint(), None);
}

#[test]
fn the_footprint_adds_up_over_signals_and_archives() {
    let d = Declaration::new(
        1,
        vec![
            SignalSpec::scalar("x", ladder()),
            SignalSpec::categorical("o", 4, vec![ArchiveSpec::new(1, 3)]),
            clusters(2, 3),
        ],
    );
    let expected = HEADER_BYTES + 20 * 40 + 3 * 32 + 8 * (2 * (16 + 12));
    assert_eq!(d.footprint(), expected);
    assert_eq!(d.checked_footprint(), Some(expected));
    let copy = d.clone();
    let s = Store::new(d).unwrap();
    assert_eq!(s.footprint(), expected);
    assert_eq!(s.declaration(), &copy);
}

// ------------------------------------------------------------------ grants

#[test]
fn grants_hold_what_was_granted() {
    let d = one(ladder());
    assert!(Grant::none().is_empty());
    assert!(Grant::default().granted().is_empty());
    let g = Grant::none().allow(60).allow(5).allow(60);
    assert_eq!(g.granted(), vec![5, 60]);
    assert!(g.permits(5));
    assert!(!g.permits(10));
    assert!(!g.is_empty());
    assert_eq!(g.clone(), g);
    assert_eq!(Grant::all(&d).granted(), vec![1, 10]);
    assert_eq!(Grant::coarser_than(&d, 2).granted(), vec![10]);
    assert!(Grant::coarser_than(&d, 11).is_empty());
}

// ------------------------------------------------------------------ ingest

#[test]
fn flushing_twice_is_flushing_once() {
    let mut s = scalar_store();
    s.flush("x").unwrap();
    assert_eq!(fine(&s, "x").span_secs, 0);
    s.observe("x", 0, obs(4)).unwrap();
    s.flush("x").unwrap();
    let once = read(&s, "x");
    s.flush("x").unwrap();
    assert_eq!(read(&s, "x"), once);
    assert_eq!(once.window(1).unwrap().span_secs, 1);
    assert_eq!(once.window(1).unwrap().observations, 1);

    // The closed step is not written again when time goes on.
    s.observe("x", 1, obs(6)).unwrap();
    s.flush("x").unwrap();
    assert_eq!(fine(&s, "x").span_secs, 2);
    assert_eq!(fine(&s, "x").mean, Some(n(5)));
}

#[test]
fn closing_steps_before_the_next_makes_no_difference() {
    let mut plain = scalar_store();
    let mut closed = scalar_store();
    for t in [0, 1, 4, 5, 9, 10, 13, 40, 41] {
        plain.observe("x", t, obs(t as i64)).unwrap();
        closed.observe("x", t, obs(t as i64)).unwrap();
        if t % 2 == 1 {
            closed.flush("x").unwrap();
        }
    }
    plain.flush("x").unwrap();
    closed.flush("x").unwrap();
    assert_eq!(read(&plain, "x"), read(&closed, "x"));
}

#[test]
fn long_silences_read_alike() {
    let after = |t: u64| {
        let mut s = scalar_store();
        for t in 0..7 {
            s.observe("x", t, obs(3)).unwrap();
        }
        s.observe("x", t, obs(5)).unwrap();
        s.flush("x").unwrap();
        read(&s, "x")
    };
    // The finest archive retains ten steps.
    assert_eq!(after(17), after(18));
    assert_eq!(after(17), after(1_000_000));
    assert_ne!(after(17), after(8));
}

#[test]
fn every_archive_closes_a_slot_whenever_its_steps_have_passed() {
    let mut s = Store::new(one(vec![
        ArchiveSpec::new(2, 50),
        ArchiveSpec::new(6, 50),
        ArchiveSpec::new(12, 50),
    ]))
    .unwrap();
    for t in 0..40u64 {
        // Half of the steps carry nothing.
        if t % 4 < 2 {
            s.observe("x", t, obs(1)).unwrap();
            s.flush("x").unwrap();
            let r = read(&s, "x");
            for steps in [2, 6, 12] {
                let slots = (t + 1) / steps;
                assert_eq!(r.window(steps).unwrap().span_secs, slots * steps);
            }
        }
    }
}

#[test]
fn observations_of_one_step_are_one_slot() {
    let d = Declaration::new(10, vec![SignalSpec::scalar("x", ladder())]);
    let mut s = Store::new(d).unwrap();
    s.observe("x", 100, obs(1)).unwrap();
    s.observe("x", 109, obs(3)).unwrap();
    s.observe("x", 110, obs(9)).unwrap();
    let w = s.read_at("x", 10, &all(&s)).unwrap();
    assert_eq!(w.span_secs, 10);
    assert_eq!(w.observations, 2);
    assert_eq!(w.mean, Some(n(2)));
    assert_eq!(w.variance, Some(n(1)));
}

#[test]
fn a_late_observation_is_ignored() {
    let mut s = scalar_store();
    s.observe("x", 5, obs(1)).unwrap();
    assert_eq!(s.observe("x", 4, obs(100)), Ok(()));
    assert_eq!(s.observe("x", 4, Observation::Class(0)), Ok(()));
    s.flush("x").unwrap();
    let w = fine(&s, "x");
    assert_eq!(w.observations, 1);
    assert_eq!(w.max, Some(n(1)));
}

#[test]
fn a_refused_observation_leaves_its_step_unknown() {
    let mut s = scalar_store();
    assert_eq!(
        s.observe("x", 0, Observation::Class(0)),
        Err(Refusal::WrongKind {
            signal: "x".to_string()
        })
    );
    s.observe("x", 1, obs(8)).unwrap();
    s.flush("x").unwrap();
    let w = fine(&s, "x");
    assert_eq!(w.span_secs, 2);
    assert_eq!(w.observations, 1);
    assert_eq!(w.mean, Some(n(8)));
    assert_eq!(w.min, Some(n(8)));
}

#[test]
fn a_signal_refuses_what_is_not_of_its_kind() {
    let d = Declaration::new(
        1,
        vec![
            SignalSpec::categorical("o", 2, ladder()),
            SignalSpec::vector("v", 2, Quant::F32, ladder()),
        ],
    );
    let mut s = Store::new(d).unwrap();
    let wrong = |name: &str| {
        Err(Refusal::WrongKind {
            signal: name.to_string(),
        })
    };
    assert_eq!(s.observe("o", 0, Observation::Class(2)), wrong("o"));
    assert_eq!(s.observe("o", 0, obs(1)), wrong("o"));
    assert_eq!(s.observe("v", 0, point(&[1, 2, 3])), wrong("v"));
    assert_eq!(s.observe("v", 0, Observation::Class(0)), wrong("v"));
    assert_eq!(s.observe("o", 0, Observation::Class(1)), Ok(()));
    assert_eq!(s.observe("v", 0, point(&[1, 2])), Ok(()));
}

#[test]
fn an_unheard_of_signal_is_refused_everywhere() {
    let mut s = scalar_store();
    let g = all(&s);
    let unknown = || Refusal::UnknownSignal("y".to_string());
    assert_eq!(s.observe("y", 0, obs(1)), Err(unknown()));
    assert_eq!(s.flush("y"), Err(unknown()));
    assert_eq!(s.read("y", &g), Err(unknown()));
    assert_eq!(s.read_at("y", 1, &g), Err(unknown()));
    assert_eq!(s.centroid("y", 1, &g), Err(unknown()));
    assert_eq!(s.quote("y", &g, 0), Err(unknown()));
    assert!(s.can_observe("y", 0, &obs(1)));
    assert!(s.can_flush("y"));
    assert!(s.can_read("y", &g));
}

#[test]
fn the_last_signal_of_a_name_takes_the_observations() {
    let d = Declaration::new(
        1,
        vec![
            SignalSpec::scalar("x", ladder()),
            SignalSpec::categorical("x", 2, vec![ArchiveSpec::new(2, 4)]),
        ],
    );
    let mut s = Store::new(d).unwrap();
    assert_eq!(s.observe("x", 0, Observation::Class(1)), Ok(()));
    assert!(matches!(
        s.observe("x", 0, obs(1)),
        Err(Refusal::WrongKind { .. })
    ));
    // What is offered under the name is what was declared first.
    assert_eq!(
        s.read_at("x", 7, &all(&s)),
        Err(Refusal::NotDeclared {
            requested: 7,
            offered: vec![1, 10]
        })
    );
}

#[test]
fn signals_do_not_touch_one_another() {
    let d = Declaration::new(
        1,
        vec![
            SignalSpec::scalar("x", ladder()),
            SignalSpec::scalar("y", ladder()),
        ],
    );
    let mut s = Store::new(d).unwrap();
    s.observe("x", 0, obs(1)).unwrap();
    s.flush("x").unwrap();
    let before = read(&s, "x");
    for t in 0..100 {
        s.observe("y", t, obs(9)).unwrap();
    }
    s.flush("y").unwrap();
    assert_eq!(read(&s, "x"), before);
}

#[test]
fn ordinary_calls_pass_their_limits() {
    let mut s = scalar_store();
    let g = all(&s);
    for t in 0..30 {
        assert!(s.can_observe("x", t, &obs(1)));
        s.observe("x", t, obs(1)).unwrap();
        assert!(s.can_flush("x"));
    }
    assert!(s.can_observe("x", 3, &obs(1)));
    assert!(s.can_read("x", &g));
    assert!(s.can_read_at("x", 10, &g));
}

// ------------------------------------------------------------------ silence

#[test]
fn a_long_silence_is_collapsed_and_reads_unknown() {
    let mut s = scalar_store();
    s.observe("x", 0, obs(7)).unwrap();
    s.observe("x", 1_000_000_000_000, obs(7)).unwrap();
    let w = fine(&s, "x");
    assert_eq!(w.span_secs, 10);
    assert_eq!(w.observations, 0);
    assert_eq!(w.mean, None);
    assert!(w.unknown);
}

#[test]
fn a_silence_that_is_tolerated_whole_has_no_data_either() {
    let mut s = Store::new(one(vec![ArchiveSpec::new(1, 4).with_xff(n(1))])).unwrap();
    s.observe("x", 0, obs(7)).unwrap();
    s.observe("x", 50, obs(7)).unwrap();
    let w = fine(&s, "x");
    assert!(!w.unknown);
    assert_eq!(w.observations, 0);
    assert_eq!(w.mean, None);
}

#[test]
fn a_coarse_slot_is_unknown_past_its_tolerance_and_not_at_it() {
    for (known, expected) in [(4u64, None), (5, Some(n(3)))] {
        let mut s = scalar_store();
        for t in 0..known {
            s.observe("x", t, obs(3)).unwrap();
        }
        s.observe("x", 10, obs(3)).unwrap();
        let w = s.read_at("x", 10, &all(&s)).unwrap();
        assert_eq!(w.span_secs, 10);
        assert_eq!(w.mean, expected);
        assert_eq!(w.unknown, expected.is_none());
    }
}

#[test]
fn a_coarse_slot_with_gaps_is_the_summary_of_the_steps_that_are_known() {
    let mut s = scalar_store();
    for t in [0, 2, 4, 6, 9, 10] {
        s.observe("x", t, obs(t as i64)).unwrap();
    }
    let w = s.read_at("x", 10, &all(&s)).unwrap();
    assert!(!w.unknown);
    assert_eq!(w.observations, 5);
    assert_eq!((w.min, w.max), (Some(n(0)), Some(n(9))));
    assert!((w.mean.unwrap().raw - 21 * UNIT / 5).abs() <= 8);
}

#[test]
fn nothing_observed_reads_as_nothing() {
    let s = scalar_store();
    let r = read(&s, "x");
    assert_eq!(r.signal, "x");
    assert_eq!(r.now, None);
    assert_eq!(r.windows.len(), 2);
    for w in &r.windows {
        assert_eq!(w.span_secs, 0);
        assert_eq!(w.observations, 0);
        assert_eq!(w.mean, None);
        assert!(w.unknown);
    }
    assert_eq!(r.sigma(), None);
}

// -------------------------------------------------------------------- reads

#[test]
fn every_archive_is_the_summary_of_the_steps_it_spans() {
    let archives = vec![
        ArchiveSpec::new(2, 3),
        ArchiveSpec::new(4, 2),
        ArchiveSpec::new(12, 5),
    ];
    let mut s = Store::new(one(archives)).unwrap();
    for t in 0..25 {
        s.observe("x", 40 + t, obs(t as i64)).unwrap();
    }
    s.flush("x").unwrap();
    let r = read(&s, "x");

    // Twelve slots of two steps were closed, and the last three are 18..=23.
    let w = r.window(2).unwrap();
    assert_eq!((w.observations, w.min, w.max), (6, Some(n(18)), Some(n(23))));
    assert_eq!(w.span_secs, 6);
    // Six slots of four, the last two 16..=23.
    let w = r.window(4).unwrap();
    assert_eq!((w.observations, w.min, w.max), (8, Some(n(16)), Some(n(23))));
    // Two slots of twelve, both retained.
    let w = r.window(12).unwrap();
    assert_eq!((w.observations, w.min, w.max), (24, Some(n(0)), Some(n(23))));
    assert_eq!(w.span_secs, 24);
    assert_eq!(r.now, Some(Fixed { raw: 45 * UNIT / 2 }));
    assert!(r.window(7).is_none());
}

#[test]
fn a_categorical_window_carries_counts_dominant_and_entropy() {
    let d = Declaration::new(
        1,
        vec![SignalSpec::categorical(
            "o",
            3,
            vec![ArchiveSpec::new(1, 4), ArchiveSpec::new(4, 4)],
        )],
    );
    let mut s = Store::new(d).unwrap();
    for (t, class) in [0usize, 2, 2, 0, 2, 2, 2, 2].into_iter().enumerate() {
        s.observe("o", t as u64, Observation::Class(class)).unwrap();
    }
    s.flush("o").unwrap();
    let r = read(&s, "o");
    let recent = r.window(1).unwrap();
    assert_eq!(recent.counts, Some(vec![0, 0, 4]));
    assert_eq!(recent.dominant, Some(2));
    assert_eq!(recent.entropy, Some(n(0)));
    let whole = r.window(4).unwrap();
    assert_eq!(whole.counts, Some(vec![2, 0, 6]));
    assert_eq!(whole.observations, 8);
    assert_eq!(whole.mean, None);
    assert_eq!(whole.spread, None);
    assert_eq!(r.now, None);
    assert_eq!(r.sigma(), None);
}

#[test]
fn a_vector_window_carries_spread_and_drift_from_the_coarsest() {
    let d = Declaration::new(
        1,
        vec![SignalSpec::vector(
            "v",
            2,
            Quant::F32,
            vec![ArchiveSpec::new(1, 2), ArchiveSpec::new(2, 2)],
        )],
    );
    let mut s = Store::new(d).unwrap();
    for (t, v) in [[0i64, 0], [0, 0], [6, 8], [6, 8]].iter().enumerate() {
        s.observe("v", t as u64, point(v)).unwrap();
    }
    s.flush("v").unwrap();
    let g = all(&s);
    let r = s.read("v", &g).unwrap();
    let recent = r.window(1).unwrap();
    assert_eq!(recent.spread, Some(n(0)));
    assert_eq!(recent.drift, Some(n(5)));
    let whole = r.window(2).unwrap();
    assert_eq!(whole.spread, Some(n(25)));
    assert_eq!(whole.drift, None);
    assert_eq!(whole.counts, None);

    assert_eq!(s.centroid("v", 1, &g), Ok(Some(vec![n(6), n(8)])));
    assert_eq!(s.centroid("v", 2, &g), Ok(Some(vec![n(3), n(4)])));

    // With the coarse resolution withheld there is nothing to drift from.
    let narrow = Grant::none().allow(1);
    assert_eq!(s.read_at("v", 1, &narrow).unwrap().drift, None);
    assert_eq!(
        s.centroid("v", 2, &narrow),
        Err(Refusal::NotGranted {
            requested: 2,
            granted: vec![1]
        })
    );
    assert_eq!(
        s.centroid("v", 3, &g),
        Err(Refusal::NotDeclared {
            requested: 3,
            offered: vec![1, 2]
        })
    );
}

#[test]
fn a_centroid_is_for_vectors_and_absent_without_any() {
    let mut s = scalar_store();
    s.observe("x", 0, obs(1)).unwrap();
    assert_eq!(
        s.centroid("x", 1, &all(&s)),
        Err(Refusal::WrongKind {
            signal: "x".to_string()
        })
    );
    let d = Declaration::new(1, vec![SignalSpec::vector("v", 1, Quant::F32, ladder())]);
    let v: Store<Fixed> = Store::new(d).unwrap();
    assert_eq!(v.centroid("v", 1, &all(&v)), Ok(None));
}

#[test]
fn a_codebook_signal_reads_as_its_total() {
    let mut s = Store::new(Declaration::new(1, vec![clusters(1, 1)])).unwrap();
    for (t, x) in [0i64, 4, 8, 12].into_iter().enumerate() {
        assert!(s.can_observe("c", t as u64, &point(&[x])));
        s.observe("c", t as u64, point(&[x])).unwrap();
    }
    s.flush("c").unwrap();
    let g = all(&s);
    let w = s.read_at("c", 1, &g).unwrap();
    assert_eq!(w.observations, 4);
    assert_eq!(w.spread, Some(n(20)));
    assert_eq!(w.drift, Some(n(0)));
    assert_eq!(s.centroid("c", 2, &g), Ok(Some(vec![n(6)])));
    assert!(matches!(
        s.observe("c", 4, obs(1)),
        Err(Refusal::WrongKind { .. })
    ));

    assert!(!s.can_observe("c", 5, &point(&[1, 2])));
}

#[test]
fn a_codebook_without_room_is_rejected() {
    let d = Declaration::new(1, vec![clusters(0, 2)]);
    let fault = DeclError::NoCodebook("c".to_string());
    assert_eq!(d.validate(), Err(fault.clone()));
    assert_eq!(Store::new(d).err(), Some(fault));
    // The dimension is looked at first.
    assert_eq!(
        Declaration::new(1, vec![clusters(0, 0)]).validate(),
        Err(DeclError::NoDim("c".to_string()))
    );
    assert_eq!(Declaration::new(1, vec![clusters(1, 2)]).validate(), Ok(()));
}

#[test]
fn the_resolutions_of_a_signal_ascend_in_an_unsound_declaration_too() {
    let d = one(vec![
        ArchiveSpec::new(10, 4),
        ArchiveSpec::new(1, 4),
        ArchiveSpec::new(10, 2),
        ArchiveSpec::new(3, 1),
    ]);
    assert!(d.validate().is_err());
    assert_eq!(d.resolutions_of("x"), vec![1, 3, 10, 10]);
    assert!(d.resolutions_of("nope").is_empty());
}

#[test]
fn a_codebook_signal_reads_as_the_vector_signal_does() {
    let mut vectors = clusters(2, 2);
    vectors.kind = SlotKind::Vector;
    let mut a = Store::new(Declaration::new(1, vec![clusters(2, 2)])).unwrap();
    let mut b = Store::new(Declaration::new(1, vec![vectors])).unwrap();
    for (t, v) in [(0, [0, 0]), (1, [8, 0]), (2, [9, 3]), (5, [1, 1]), (7, [4, 4])] {
        a.observe("c", t, point(&v)).unwrap();
        b.observe("c", t, point(&v)).unwrap();
    }
    a.flush("c").unwrap();
    b.flush("c").unwrap();
    assert_eq!(read(&a, "c"), read(&b, "c"));
    for res in [1, 2] {
        assert_eq!(a.centroid("c", res, &all(&a)), b.centroid("c", res, &all(&b)));
    }
}

#[test]
fn a_window_does_not_depend_on_the_rest_of_the_grant() {
    let mut s = scalar_store();
    for t in 0..35 {
        s.observe("x", t, obs((t % 5) as i64)).unwrap();
    }
    for res in [1, 10] {
        assert_eq!(
            s.read_at("x", res, &Grant::none().allow(res)),
            s.read_at("x", res, &all(&s))
        );
    }
}

#[test]
fn withheld_archives_do_not_show() {
    let make = |classes: [usize; 4]| {
        let d = Declaration::new(
            1,
            vec![SignalSpec::categorical(
                "o",
                2,
                vec![ArchiveSpec::<Fixed>::new(1, 4), ArchiveSpec::new(4, 4)],
            )],
        );
        let mut s = Store::new(d).unwrap();
        for (t, class) in classes.into_iter().enumerate() {
            s.observe("o", t as u64, Observation::Class(class)).unwrap();
        }
        s.flush("o").unwrap();
        s
    };
    let (a, b) = (make([0, 0, 1, 1]), make([1, 0, 1, 0]));
    let coarse = Grant::none().allow(4);
    assert_eq!(a.read("o", &coarse), b.read("o", &coarse));
    assert_eq!(a.read("o", &coarse).unwrap().withheld, vec![1]);
}

#[test]
fn one_resolution_reads_as_in_the_whole() {
    let mut s = scalar_store();
    for t in 0..47 {
        s.observe("x", t, obs((t * t % 11) as i64)).unwrap();
    }
    let r = read(&s, "x");
    for res in [1, 10] {
        assert_eq!(
            r.window(res),
            Some(&s.read_at("x", res, &all(&s)).unwrap())
        );
    }
    let q = s.quote("x", &all(&s), 46).unwrap();
    assert_eq!(q.taken_at, 46);
    assert_eq!(q.reading, r);
}

#[test]
fn sigma_is_measured_from_the_coarsest_permitted_window() {
    let mut s = Store::new(one(vec![ArchiveSpec::new(1, 2), ArchiveSpec::new(2, 2)])).unwrap();
    for (t, x) in [0i64, 0, 4, 4].into_iter().enumerate() {
        s.observe("x", t as u64, obs(x)).unwrap();
    }
    s.flush("x").unwrap();
    let r = read(&s, "x");
    // Mean 2 and standard deviation 2 over all four, and now at 4.
    assert_eq!(r.now, Some(n(4)));
    assert_eq!(r.sigma(), Some(n(1)));
    // Over the recent two alone there is no spread.
    assert_eq!(s.read("x", &Grant::none().allow(1)).unwrap().sigma(), None);
    // Without the finest resolution there is no current value.
    assert_eq!(s.read("x", &Grant::none().allow(2)).unwrap().sigma(), None);
}

#[test]
fn expired_history_does_not_show_however_it_went() {
    let make = |first: i64| {
        let mut s = scalar_store();
        for t in 0..10 {
            s.observe("x", t, obs(first * t as i64)).unwrap();
        }
        for t in 10..30 {
            s.observe("x", t, obs(1)).unwrap();
        }
        s.flush("x").unwrap();
        s
    };
    assert_eq!(fine(&make(3), "x"), fine(&make(77), "x"));
}
