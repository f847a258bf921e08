//! Permission: a reading follows from the grant, and from nothing that is withheld.

use vstd::prelude::*;

use crate::arith::Arith;
use crate::channel::Channel;
use crate::clusters::lemma_total_counts;
use crate::decl::SignalPlan;
use crate::exact::{is_root, lemma_root_of_zero, lemma_root_unique, Exact};
use crate::ladder::Tier;
use crate::laws::rings::law_absent_slots_fold_to_nothing;
use crate::laws::scalars::{
    law_push_describes, lemma_cancel, lemma_times_quotient, pushed, squares_about, total,
};
use crate::reading::{deviation, Outlook, Pane, Reading, Report, Window};
use crate::ring::{absent, counts_of, folded, lemma_folded};
use crate::slot::{Shape, Summary};

verus! {

/// A reader with no grant reads nothing, and learns which resolutions were withheld:
/// all of them, in order.
pub proof fn law_no_grant_reads_nothing<F: Arith>(o: Outlook<F>, signal: Seq<char>)
    requires
        o.grant == Set::<u64>::empty(),
    ensures
        o.report(signal).windows.len() == 0,
        o.report(signal).now is None,
        o.report(signal).withheld == Seq::new(
            o.tiers.len(),
            |i: int| o.resolution(i) as u64,
        ),
{
    lemma_nothing_granted(o, o.tiers.len());
}

proof fn lemma_nothing_granted<F: Arith>(o: Outlook<F>, upto: nat)
    requires
        o.grant == Set::<u64>::empty(),
    ensures
        o.windows(upto).len() == 0,
        o.withheld(upto) == Seq::new(upto, |i: int| o.resolution(i) as u64),
    decreases upto,
{
    if upto > 0 {
        lemma_nothing_granted(o, (upto - 1) as nat);
        assert(!o.permitted(upto - 1));
        assert(o.withheld(upto) =~= Seq::new(upto, |i: int| o.resolution(i) as u64));
    }
}

/// Every archive is either read or named as withheld: read exactly where its
/// resolution is granted.
pub proof fn law_an_archive_is_read_or_withheld<F: Arith>(o: Outlook<F>, i: int)
    requires
        0 <= i < o.tiers.len(),
    ensures
        o.windows(o.tiers.len()).len() + o.withheld(o.tiers.len()).len() == o.tiers.len(),
        o.permitted(i) ==> o.windows(o.tiers.len()).contains(o.pane(i)),
        !o.permitted(i) ==> o.withheld(o.tiers.len()).contains(o.resolution(i) as u64),
{
    lemma_read_or_withheld(o, o.tiers.len(), i);
}

proof fn lemma_read_or_withheld<F: Arith>(o: Outlook<F>, upto: nat, i: int)
    ensures
        o.windows(upto).len() + o.withheld(upto).len() == upto,
        0 <= i < upto && o.permitted(i) ==> o.windows(upto).contains(o.pane(i)),
        0 <= i < upto && !o.permitted(i) ==> o.withheld(upto).contains(o.resolution(i) as u64),
    decreases upto,
{
    if upto > 0 {
        let less = (upto - 1) as nat;
        lemma_read_or_withheld(o, less, i);
        let (w, h) = (o.windows(less), o.withheld(less));
        if o.permitted(less as int) {
            assert(o.windows(upto)[w.len() as int] == o.pane(less as int));
            if 0 <= i < less && o.permitted(i) {
                let t = choose|t: int| 0 <= t < w.len() && w[t] == o.pane(i);
                assert(o.windows(upto)[t] == o.pane(i));
            }
        } else {
            assert(o.withheld(upto)[h.len() as int] == o.resolution(less as int) as u64);
            if 0 <= i < less && !o.permitted(i) {
                let t = choose|t: int| 0 <= t < h.len() && h[t] == o.resolution(i) as u64;
                assert(o.withheld(upto)[t] == o.resolution(i) as u64);
            }
        }
    }
}

/// Every window is of a granted resolution, and no resolution named as withheld is.
pub proof fn law_only_granted_resolutions_are_read<F: Arith>(o: Outlook<F>, t: int)
    requires
        forall|i: int| 0 <= i < o.tiers.len() ==> #[trigger] o.resolution(i) <= u64::MAX,
    ensures
        0 <= t < o.windows(o.tiers.len()).len() ==> o.grant.contains(
            o.windows(o.tiers.len())[t].resolution_secs as u64,
        ) && exists|i: int|
            0 <= i < o.tiers.len() && #[trigger] o.permitted(i) && o.windows(
                o.tiers.len(),
            )[t] == o.pane(i),
        0 <= t < o.withheld(o.tiers.len()).len() ==> !o.grant.contains(
            o.withheld(o.tiers.len())[t],
        ),
{
    lemma_only_granted(o, o.tiers.len(), t);
}

proof fn lemma_only_granted<F: Arith>(o: Outlook<F>, upto: nat, t: int)
    requires
        upto <= o.tiers.len(),
    ensures
        0 <= t < o.windows(upto).len() ==> exists|i: int|
            0 <= i < upto && #[trigger] o.permitted(i) && o.windows(upto)[t] == o.pane(i),
        0 <= t < o.withheld(upto).len() ==> !o.grant.contains(o.withheld(upto)[t]),
    decreases upto,
{
    if upto > 0 {
        let less = (upto - 1) as nat;
        lemma_only_granted(o, less, t);
        if 0 <= t < o.windows(less).len() {
            let i = choose|i: int|
                0 <= i < less && #[trigger] o.permitted(i) && o.windows(less)[t] == o.pane(i);
            assert(o.windows(upto)[t] == o.windows(less)[t]);
            assert(o.permitted(i));
        } else if 0 <= t < o.windows(upto).len() {
            assert(o.permitted(upto - 1));
            assert(o.windows(upto)[t] == o.pane(upto - 1));
        }
        if 0 <= t < o.withheld(less).len() {
            assert(o.withheld(upto)[t] == o.withheld(less)[t]);
        }
    }
}

/// The current value is withheld with the resolution it belongs to.
pub proof fn law_current_value_is_gated<F: Arith>(o: Outlook<F>, signal: Seq<char>)
    requires
        !o.permitted(0),
    ensures
        o.report(signal).now is None,
{
}

/// Whether two readers' outlooks differ in nothing that either may see: they have one
/// declaration and one grant, and the archives that are granted hold the same slots.
pub open spec fn same_to_the_reader<F: Arith>(a: Outlook<F>, b: Outlook<F>) -> bool {
    &&& a.step_secs == b.step_secs
    &&& a.grant == b.grant
    &&& a.tiers.len() == b.tiers.len()
    &&& forall|i: int| 0 <= i < a.tiers.len() ==> (#[trigger] a.tiers[i]).spec == b.tiers[i].spec
    &&& forall|i: int|
        0 <= i < a.tiers.len() && #[trigger] a.permitted(i) ==> a.tiers[i].ring.slots
            == b.tiers[i].ring.slots
}

/// A withheld archive has no influence on what is read: whatever it holds, and
/// whatever any archive has not finished, the reading is the same.
pub proof fn law_withheld_archives_do_not_show<F: Arith>(
    a: Outlook<F>,
    b: Outlook<F>,
    signal: Seq<char>,
)
    requires
        a.tiers.len() > 0,
        same_to_the_reader(a, b),
    ensures
        a.report(signal) == b.report(signal),
{
    lemma_same_windows(a, b, a.tiers.len());
    assert(a.tiers[0].spec == b.tiers[0].spec);
    assert(a.resolution(0) == b.resolution(0));
    if a.permitted(0) {
        assert(a.tiers[0].ring.slots == b.tiers[0].ring.slots);
    }
}

proof fn lemma_same_resolution<F: Arith>(a: Outlook<F>, b: Outlook<F>, i: int)
    requires
        same_to_the_reader(a, b),
        0 <= i < a.tiers.len(),
    ensures
        a.resolution(i) == b.resolution(i),
        a.permitted(i) == b.permitted(i),
{
    assert(a.tiers[i].spec == b.tiers[i].spec);
}

proof fn lemma_same_baseline<F: Arith>(a: Outlook<F>, b: Outlook<F>, i: int)
    requires
        same_to_the_reader(a, b),
    ensures
        a.baseline(i) == b.baseline(i),
{
    assert forall|t: int| #[trigger] a.is_baseline(t) == b.is_baseline(t) by {
        if 0 <= t < a.tiers.len() {
            lemma_same_resolution(a, b, t);
            assert forall|j: int| t < j < a.tiers.len() implies #[trigger] a.permitted(j)
                == b.permitted(j) by {
                lemma_same_resolution(a, b, j);
            }
            if a.is_baseline(t) {
                assert forall|j: int| t < j < b.tiers.len() implies !#[trigger] b.permitted(
                    j,
                ) by {
                    assert(!a.permitted(j));
                }
            }
            if b.is_baseline(t) {
                assert forall|j: int| t < j < a.tiers.len() implies !#[trigger] a.permitted(
                    j,
                ) by {
                    assert(!b.permitted(j));
                }
            }
        }
    }
    if exists|t: int| a.is_baseline(t) && t > i {
        let x = choose|t: int| a.is_baseline(t) && t > i;
        let y = choose|t: int| b.is_baseline(t) && t > i;
        assert(a.is_baseline(x));
        assert(b.is_baseline(x));
        assert(b.is_baseline(y));
        assert(a.is_baseline(y));
        if x < y {
            assert(!a.permitted(y));
        } else if y < x {
            assert(!a.permitted(x));
        }
        assert(a.tiers[x].ring.slots == b.tiers[x].ring.slots);
    } else {
        assert forall|t: int| !(#[trigger] b.is_baseline(t) && t > i) by {
            assert(a.is_baseline(t) == b.is_baseline(t));
        }
    }
}

proof fn lemma_same_windows<F: Arith>(a: Outlook<F>, b: Outlook<F>, upto: nat)
    requires
        same_to_the_reader(a, b),
        upto <= a.tiers.len(),
    ensures
        a.windows(upto) == b.windows(upto),
        a.withheld(upto) == b.withheld(upto),
    decreases upto,
{
    if upto > 0 {
        let i = upto - 1;
        lemma_same_windows(a, b, i as nat);
        lemma_same_resolution(a, b, i);
        lemma_same_baseline(a, b, i);
        assert(a.tiers[i].spec == b.tiers[i].spec);
        if a.permitted(i) {
            assert(a.tiers[i].ring.slots == b.tiers[i].ring.slots);
            assert(a.pane(i) == b.pane(i));
        }
    }
}

/// A granted window is the same whatever else is granted, but for the drift, which is
/// measured from what the reader may see.
pub proof fn law_a_window_does_not_depend_on_the_rest_of_the_grant<F: Arith>(
    o: Outlook<F>,
    grant: Set<u64>,
    i: int,
)
    ensures
        ({
            let other = Outlook { grant, ..o };
            (Pane { drift: other.pane(i).drift, ..o.pane(i) }) == other.pane(i)
        }),
{
}

/// The coarsest permitted window has no drift: a comparison with itself means nothing.
pub proof fn law_baseline_has_no_drift<F: Arith>(o: Outlook<F>, i: int)
    requires
        o.is_baseline(i),
    ensures
        o.pane(i).drift is None,
{
    assert forall|b: int| o.is_baseline(b) implies b <= i by {
        if b > i {
            assert(!o.permitted(b));
        }
    }
}

/// Absence reaches the reader as absence: a window counts the observations behind its
/// slots, and says nothing of their values exactly where there are none.
pub proof fn law_unknown_is_not_zero<F: Arith>(
    t: Tier<F>,
    shape: Shape,
    resolution_secs: nat,
    baseline: Option<Seq<F>>,
)
    requires
        t.wf(shape),
        counts_of(t.ring.slots) <= u64::MAX,
    ensures
        ({
            let pane = t.pane(resolution_secs, baseline);
            let none = absent(t.ring.slots) == t.ring.slots.len();
            &&& pane.observations == counts_of(t.ring.slots)
            &&& pane.observations == 0 <==> none
            &&& shape is Scalar ==> (pane.mean is None <==> none) && (pane.min is None <==> none)
                && (pane.max is None <==> none) && (pane.variance is None <==> none)
            &&& shape is Categorical ==> (pane.counts is None <==> none) && (
            pane.entropy is None <==> none)
            &&& shape is Vector || shape is Clusters ==> (pane.spread is None <==> none)
        }),
{
    lemma_folded(t.ring.slots, shape);
    law_absent_slots_fold_to_nothing(t.ring.slots);
    if let Some(Summary::Clusters(b)) = folded(t.ring.slots) {
        lemma_total_counts(b.dim, b.items);
    }
}

/// A window speaks of its signal's kind, and of no other.
pub proof fn law_a_window_is_of_its_kind<F: Arith>(
    t: Tier<F>,
    shape: Shape,
    resolution_secs: nat,
    baseline: Option<Seq<F>>,
)
    requires
        t.wf(shape),
        counts_of(t.ring.slots) <= u64::MAX,
    ensures
        ({
            let pane = t.pane(resolution_secs, baseline);
            &&& !(shape is Scalar) ==> pane.mean is None && pane.min is None && pane.max is None
                && pane.variance is None
            &&& !(shape is Categorical) ==> pane.counts is None && pane.dominant is None
                && pane.entropy is None
            &&& !(shape is Vector || shape is Clusters) ==> pane.spread is None
                && pane.drift is None
        }),
{
    lemma_folded(t.ring.slots, shape);
}

proof fn lemma_constant(xs: Seq<real>, c: real)
    requires
        forall|i: int| 0 <= i < xs.len() ==> #[trigger] xs[i] == c,
    ensures
        total(xs) == (xs.len() as real) * c,
        squares_about(xs, c) == 0real,
    decreases xs.len(),
{
    if xs.len() == 0 {
        assert(0real * c == 0real) by (nonlinear_arith);
    } else {
        let before = xs.drop_last();
        assert forall|i: int| 0 <= i < before.len() implies #[trigger] before[i] == c by {
            assert(before[i] == xs[i]);
        }
        lemma_constant(before, c);
        let k = before.len() as real;
        assert(xs[xs.len() - 1] == c);
        assert(xs.len() as real == k + 1real);
        assert((k + 1real) * c == k * c + c) by (nonlinear_arith);
        let d = xs.last() - c;
        assert(d * d == 0real) by (nonlinear_arith)
            requires
                d == 0real,
        ;
    }
}

/// A constant series has no spread, so there is no honest deviation from it: the
/// question is left unanswered, whatever the current value.
pub proof fn law_flat_baseline_answers_nothing(xs: Seq<real>, c: real, now: Exact, mean: Exact)
    requires
        xs.len() > 0,
        forall|i: int| 0 <= i < xs.len() ==> #[trigger] xs[i] == c,
    ensures
        pushed(xs).variance_of() == Some(Exact::Finite(0real)),
        deviation(now, mean, pushed(xs).variance_of()->0) is None,
{
    law_push_describes(xs);
    lemma_constant(xs, c);
    let k = xs.len() as real;
    lemma_times_quotient(total(xs), k);
    lemma_cancel(k, total(xs) / k, c);
    assert(0real / k == 0real) by (nonlinear_arith)
        requires
            k > 0real,
    ;
    lemma_root_of_zero();
}

/// Elsewhere the answer is the distance from the mean, in standard deviations.
pub proof fn law_deviation_is_in_standard_deviations(
    now: real,
    mean: real,
    variance: real,
    sd: real,
)
    requires
        sd > 0real,
        is_root(sd, variance),
    ensures
        deviation(
            Exact::Finite(now),
            Exact::Finite(mean),
            Exact::Finite(variance),
        ) == Some(Exact::Finite((now - mean) / sd)),
{
    lemma_root_unique(sd, variance);
    assert(sd * sd >= 0real) by (nonlinear_arith);
}

/// A baseline of no variance, or of less, has no deviation from it.
pub proof fn law_no_deviation_without_spread(now: Exact, mean: Exact, variance: real)
    requires
        variance <= 0real,
    ensures
        deviation(now, mean, Exact::Finite(variance)) is None,
{
    lemma_root_of_zero();
}

/// In whatever arithmetic, a deviation is answered where the root of the variance is above
/// zero, and is the distance from the mean over that root.
pub proof fn law_deviation_is_over_the_root<F: Arith>(now: F, mean: F, variance: F)
    ensures
        deviation(now, mean, variance) is Some <==> F::of_nat(0).lt(variance.root()),
        deviation(now, mean, variance) matches Some(d) ==> d == now.diff(mean).quot(
            variance.root(),
        ),
{
}

/// A reading's deviation is that of the current value from its last window, which is the
/// coarsest permitted one, where all three are there; and there is none elsewhere, in
/// whatever arithmetic.
pub proof fn law_deviation_is_from_the_coarsest_window<F: Arith>(r: Report<F>, w: Pane<F>)
    requires
        r.windows.len() > 0,
        w == r.windows[r.windows.len() - 1],
    ensures
        r.now is Some && w.mean is Some && w.variance is Some ==> r.sigma_of() == deviation(
            r.now->0,
            w.mean->0,
            w.variance->0,
        ),
        r.now is None || w.mean is None || w.variance is None ==> r.sigma_of() is None,
{
}

/// No window but the coarsest has a say in the deviation: readings that have the current
/// value and the coarsest window in common have the same.
pub proof fn law_finer_windows_do_not_move_the_deviation<F: Arith>(a: Report<F>, b: Report<F>)
    requires
        a.now == b.now,
        a.windows.len() > 0,
        b.windows.len() > 0,
        a.windows[a.windows.len() - 1] == b.windows[b.windows.len() - 1],
    ensures
        a.sigma_of() == b.sigma_of(),
{
}

/// The current value is the mean of the newest slot of the finest archive, where that
/// resolution is granted. There is none where nothing was closed, the newest slot is
/// unknown, or the signal is no scalar one.
pub proof fn law_the_current_value_is_the_newest_mean<F: Arith>(
    o: Outlook<F>,
    signal: Seq<char>,
)
    requires
        o.tiers.len() > 0,
    ensures
        ({
            let slots = o.tiers[0].ring.slots;
            let granted = o.grant.contains(
                (o.tiers[0].spec.steps_per_slot * o.step_secs) as u64,
            );
            &&& !granted || slots.len() == 0 || slots[slots.len() - 1] is None ==> o.report(
                signal,
            ).now is None
            &&& granted && slots.len() > 0 ==> match slots[slots.len() - 1] {
                Some(Summary::Scalar(m)) => o.report(signal).now == if m.n > 0 {
                    Some(m.mean)
                } else {
                    None
                },
                _ => o.report(signal).now is None,
            }
        }),
{
}

/// A report is under the name that was asked for, and an archive shows in it exactly where
/// the seconds that its slots span are granted.
pub proof fn law_a_report_is_of_the_signal_that_was_asked_for<F: Arith>(
    o: Outlook<F>,
    signal: Seq<char>,
    i: int,
)
    requires
        0 <= i < o.tiers.len(),
        o.tiers[i].spec.steps_per_slot * o.step_secs <= u64::MAX,
    ensures
        o.report(signal).signal == signal,
        o.permitted(i) <==> o.grant.contains(
            (o.tiers[i].spec.steps_per_slot * o.step_secs) as u64,
        ),
        o.permitted(i) ==> o.report(signal).windows.contains(o.pane(i)),
        !o.permitted(i) ==> o.report(signal).withheld.contains(
            (o.tiers[i].spec.steps_per_slot * o.step_secs) as u64,
        ),
        o.report(signal).windows.len() + o.report(signal).withheld.len() == o.tiers.len(),
{
    law_an_archive_is_read_or_withheld(o, i);
}

/// Whether the archives coarsen, and their resolutions can be given in seconds.
pub open spec fn coarsens<F: Arith>(o: Outlook<F>) -> bool {
    &&& o.step_secs > 0
    &&& forall|i: int|
        0 <= i < o.tiers.len() ==> (#[trigger] o.tiers[i]).spec.steps_per_slot * o.step_secs
            <= u64::MAX
    &&& forall|i: int, j: int|
        0 <= i < j < o.tiers.len() ==> (#[trigger] o.tiers[i]).spec.steps_per_slot < (
        #[trigger] o.tiers[j]).spec.steps_per_slot
}

proof fn lemma_finer<F: Arith>(o: Outlook<F>, i: int, j: int)
    requires
        coarsens(o),
        0 <= i < j < o.tiers.len(),
    ensures
        o.resolution(i) < o.resolution(j) <= u64::MAX,
{
    let (a, b) = (o.tiers[i].spec.steps_per_slot as nat, o.tiers[j].spec.steps_per_slot as nat);
    let s = o.step_secs;
    assert(a < b);
    assert(a * s < b * s) by (nonlinear_arith)
        requires
            a < b,
            s > 0,
    ;
}

proof fn lemma_finest_first<F: Arith>(o: Outlook<F>, upto: nat, s: int, t: int)
    requires
        coarsens(o),
        upto <= o.tiers.len(),
    ensures
        0 <= t < o.windows(upto).len() ==> exists|i: int|
            0 <= i < upto && o.windows(upto)[t].resolution_secs == #[trigger] o.resolution(i),
        0 <= t < o.withheld(upto).len() ==> exists|i: int|
            0 <= i < upto && o.withheld(upto)[t] == #[trigger] o.resolution(i),
        0 <= s < t < o.windows(upto).len() ==> o.windows(upto)[s].resolution_secs < o.windows(
            upto,
        )[t].resolution_secs,
        0 <= s < t < o.withheld(upto).len() ==> o.withheld(upto)[s] < o.withheld(upto)[t],
    decreases upto,
{
    if upto > 0 {
        let less = (upto - 1) as nat;
        let (w, h) = (o.windows(less), o.withheld(less));
        lemma_finest_first(o, less, s, t);
        lemma_finest_first(o, less, s, s);
        assert(o.tiers[less as int].spec.steps_per_slot * o.step_secs <= u64::MAX);
        assert(o.resolution(less as int) <= u64::MAX);
        assert forall|i: int| 0 <= i < less implies #[trigger] o.resolution(i) < o.resolution(
            less as int,
        ) by {
            lemma_finer(o, i, less as int);
        }
        if 0 <= t < o.windows(upto).len() {
            if t < w.len() {
                assert(o.windows(upto)[t] == w[t]);
            } else {
                assert(o.windows(upto)[t] == o.pane(less as int));
            }
        }
        if 0 <= t < o.withheld(upto).len() {
            if t < h.len() {
                assert(o.withheld(upto)[t] == h[t]);
            } else {
                assert(o.withheld(upto)[t] == o.resolution(less as int));
            }
        }
        if 0 <= s < t < o.windows(upto).len() {
            assert(o.windows(upto)[s] == w[s]);
        }
        if 0 <= s < t < o.withheld(upto).len() {
            assert(o.withheld(upto)[s] == h[s]);
        }
    }
}

/// Windows come finest first, and so do the resolutions that were withheld.
pub proof fn law_a_report_goes_from_fine_to_coarse<F: Arith>(
    o: Outlook<F>,
    signal: Seq<char>,
    s: int,
    t: int,
)
    requires
        coarsens(o),
    ensures
        0 <= s < t < o.report(signal).windows.len() ==> o.report(
            signal,
        ).windows[s].resolution_secs < o.report(signal).windows[t].resolution_secs,
        0 <= s < t < o.report(signal).withheld.len() ==> o.report(signal).withheld[s]
            < o.report(signal).withheld[t],
{
    lemma_finest_first(o, o.tiers.len(), s, t);
}

/// The archives of a sound signal coarsen.
pub proof fn law_archives_of_a_sound_signal_coarsen<F: Arith>(
    c: Channel<F>,
    step_secs: nat,
    grant: Set<u64>,
)
    requires
        c.wf(),
        step_secs > 0,
        forall|i: int|
            0 <= i < c.tiers.len() ==> (#[trigger] c.tiers[i]).spec.steps_per_slot * step_secs
                <= u64::MAX,
    ensures
        coarsens(Outlook { step_secs, tiers: c.tiers, grant }),
{
    assert forall|i: int, j: int| 0 <= i < j < c.tiers.len() implies (
    #[trigger] c.tiers[i]).spec.steps_per_slot < (
    #[trigger] c.tiers[j]).spec.steps_per_slot by {
        lemma_coarser(c.plan, i, j);
    }
}

proof fn lemma_coarser<F: Arith>(plan: SignalPlan<F>, i: int, j: int)
    requires
        plan.valid(),
        0 <= i < j < plan.archives.len(),
    ensures
        plan.archives[i].steps_per_slot < plan.archives[j].steps_per_slot,
    decreases j,
{
    assert(plan.archives[j - 1].steps_per_slot < plan.archives[j].steps_per_slot);
    if i < j - 1 {
        lemma_coarser(plan, i, j - 1);
    }
}

/// A window holds each of its numbers where it is named.
pub proof fn law_a_window_holds_what_it_says<R>(w: Window<R>)
    ensures
        w@.resolution_secs == w.resolution_secs,
        w@.span_secs == w.span_secs,
        w@.mean == w.mean && w@.min == w.min && w@.max == w.max && w@.variance == w.variance,
        w@.counts is Some <==> w.counts is Some,
        w.counts matches Some(c) ==> w@.counts == Some(c@),
        w@.dominant == w.dominant && w@.entropy == w.entropy,
        w@.spread == w.spread && w@.drift == w.drift,
        w@.observations == w.observations,
        w@.unknown == w.unknown,
{
}

/// A reading holds its windows in order, and the rest where it is named.
pub proof fn law_a_reading_holds_what_it_says<R>(r: Reading<R>)
    ensures
        r@.signal == r.signal@,
        r@.now == r.now,
        r@.withheld == r.withheld@,
        r@.windows.len() == r.windows@.len(),
        forall|i: int| 0 <= i < r.windows@.len() ==> #[trigger] r@.windows[i] == r.windows@[i]@,
{
}

/// A reading has no deviation where the current value is withheld or nothing was
/// granted, in whatever arithmetic.
pub proof fn law_no_deviation_without_a_current_value<F: Arith>(r: Report<F>)
    requires
        r.now is None || r.windows.len() == 0,
    ensures
        r.sigma_of() is None,
{
}

} // verus!
