//! What a window says, in terms of what was observed.

use vstd::prelude::*;

use crate::arith::Arith;
use crate::categorical::{counts_total, dominant_of, entropy_of};
use crate::channel::{Channel, Sample};
use crate::clusters::lemma_total_counts;
use crate::decl::SignalPlan;
use crate::exact::{is_root, Exact};
use crate::kind::SlotKind;
use crate::ladder::Tier;
use crate::laws::classes::{
    information, law_counters_count_occurrences, law_dominant_is_the_lowest_of_the_most_frequent,
    law_entropy_is_the_sum_over_the_classes, law_total_counts_every_observation, occurrences,
    tallied,
};
use crate::laws::consolidation::{
    all_taken, classes_of, lemma_classes, lemma_part_taken, lemma_scalars,
    lemma_surviving_taken, lemma_vectors, merges_exactly, remembered, scalars_of, surviving,
    together, vectors_of,
};
use crate::laws::rings::{last_of, law_share_is_of_the_whole};
use crate::laws::scalars::{
    is_greatest, is_least, law_statistics_are_of_the_samples, squares_about, total,
};
use crate::laws::signals::{heard, law_window_is_of_what_survived, played};
use crate::laws::vectors::{
    all_of_dim, dot, gathered, law_centroid_is_the_mean,
    law_drift_is_the_distance_from_the_baseline, law_spread_is_the_mean_squared_distance,
    lemma_gathered, less, lifted, middle, scatter,
};
use crate::reading::{center_of, Outlook, Pane};
use crate::ring::{absent, count_of, folded};
use crate::slot::Summary;
use crate::vector::distance_sq;

verus! {

/// Whether a window says what there is to say of the numbers: how many they are, their
/// mean, the mean squared deviation from it, the least and the greatest.
pub open spec fn tells_of_numbers(pane: Pane<Exact>, xs: Seq<real>) -> bool {
    let k = xs.len() as real;
    let mean = total(xs) / k;
    &&& pane.observations == xs.len()
    &&& pane.mean == Some(Exact::Finite(mean))
    &&& pane.variance == Some(Exact::Finite(squares_about(xs, mean) / k))
    &&& pane.min matches Some(Exact::Finite(least)) && is_least(xs, least)
    &&& pane.max matches Some(Exact::Finite(greatest)) && is_greatest(xs, greatest)
    &&& pane.counts is None && pane.dominant is None && pane.entropy is None
    &&& pane.spread is None && pane.drift is None
}

/// Whether a window says what there is to say of the classes: how many observations there
/// are, how often each class occurs, the lowest of those that occur most often, and the
/// entropy.
pub open spec fn tells_of_classes(pane: Pane<Exact>, cs: Seq<int>, classes: nat) -> bool {
    &&& pane.observations == cs.len()
    &&& pane.counts matches Some(counts) && {
        &&& counts.len() == classes
        &&& forall|c: int| 0 <= c < classes ==> #[trigger] counts[c] == occurrences(cs, c)
        &&& pane.entropy == Some(Exact::Finite(total(information(counts, cs.len() as real))))
        &&& pane.dominant matches Some(d) && {
            &&& d < classes
            &&& occurrences(cs, d as int) > 0
            &&& forall|c: int|
                0 <= c < classes ==> #[trigger] counts[c] <= counts[d as int] && (counts[c]
                    == counts[d as int] ==> d <= c)
        }
    }
    &&& pane.mean is None && pane.min is None && pane.max is None && pane.variance is None
    &&& pane.spread is None && pane.drift is None
}

/// Whether a window says what there is to say of the vectors: how many they are, and their
/// mean squared distance from their mean.
pub open spec fn tells_of_vectors(pane: Pane<Exact>, vs: Seq<Seq<real>>, dim: nat) -> bool {
    &&& pane.observations == vs.len()
    &&& pane.spread == Some(
        Exact::Finite(scatter(vs, middle(vs, dim)) / (vs.len() as real)),
    )
    &&& pane.mean is None && pane.min is None && pane.max is None && pane.variance is None
    &&& pane.counts is None && pane.dominant is None && pane.entropy is None
}

/// Whether a window says that there is nothing.
pub open spec fn tells_of_nothing(pane: Pane<Exact>) -> bool {
    &&& pane.observations == 0
    &&& pane.mean is None && pane.min is None && pane.max is None && pane.variance is None
    &&& pane.counts is None && pane.dominant is None && pane.entropy is None
    &&& pane.spread is None && pane.drift is None
}

/// Whether a window of a signal says what there is to say of the observations.
pub open spec fn tells_of(
    pane: Pane<Exact>,
    plan: SignalPlan<Exact>,
    seen: Seq<Sample<Exact>>,
) -> bool {
    if seen.len() == 0 {
        tells_of_nothing(pane)
    } else {
        match plan.kind {
            SlotKind::Scalar => tells_of_numbers(pane, scalars_of(seen)),
            SlotKind::Categorical => tells_of_classes(pane, classes_of(seen), plan.classes),
            _ => tells_of_vectors(pane, vectors_of(seen), plan.dim),
        }
    }
}

/// A window tells of what its retained slots remember: of numbers their mean, variance,
/// least and greatest; of classes how often each occurred, which is dominant, and the
/// entropy; of vectors the spread; and of nothing nothing.
pub proof fn law_a_window_tells_of_what_it_remembers(
    plan: SignalPlan<Exact>,
    t: Tier<Exact>,
    seen: Seq<Sample<Exact>>,
    resolution_secs: nat,
    baseline: Option<Seq<Exact>>,
)
    requires
        merges_exactly(plan),
        all_taken(plan, seen),
        seen.len() <= u64::MAX,
        plan.classes <= usize::MAX,
        folded(t.ring.slots) == remembered(plan, seen),
    ensures
        tells_of(t.pane(resolution_secs, baseline), plan, seen),
{
    let pane = t.pane(resolution_secs, baseline);
    if seen.len() > 0 {
        match plan.kind {
            SlotKind::Scalar => {
                lemma_scalars(plan, seen);
                law_statistics_are_of_the_samples(scalars_of(seen));
            },
            SlotKind::Categorical => {
                lemma_classes(plan, seen);
                let cs = classes_of(seen);
                let counts = tallied(plan.classes, cs);
                assert forall|c: int| 0 <= c < plan.classes implies #[trigger] counts[c]
                    == occurrences(cs, c) by {
                    law_counters_count_occurrences(plan.classes, cs, c);
                }
                assert(0 <= cs[0] < plan.classes);
                law_counters_count_occurrences(plan.classes, cs, cs[0]);
                law_total_counts_every_observation(plan.classes, cs);
                law_dominant_is_the_lowest_of_the_most_frequent(counts);
                law_entropy_is_the_sum_over_the_classes(counts);
                assert(pane.counts == Some(counts));
            },
            _ => {
                lemma_vectors(plan, seen);
                law_spread_is_the_mean_squared_distance(vectors_of(seen), plan.dim);
                law_centroid_is_the_mean(vectors_of(seen), plan.dim);
                lemma_gathered(vectors_of(seen), plan.dim);
            },
        }
    }
}

/// A window tells of what was observed: after any history of a signal, of the
/// observations in the steps that its retained slots span, but for those that an archive
/// dropped as too sparse.
pub proof fn law_a_window_tells_of_what_was_observed(
    plan: SignalPlan<Exact>,
    first: u64,
    groups: Seq<Seq<Sample<Exact>>>,
    closes: Set<int>,
    i: int,
    resolution_secs: nat,
    baseline: Option<Seq<Exact>>,
)
    requires
        plan.valid(),
        merges_exactly(plan),
        plan.classes <= usize::MAX,
        groups.len() > 0,
        groups[0].len() > 0,
        groups.last().len() > 0,
        first + groups.len() <= u64::MAX,
        all_taken(plan, together(heard(plan, groups))),
        together(heard(plan, groups)).len() <= u64::MAX,
        0 <= i < plan.archives.len(),
    ensures
        tells_of(
            played(Channel::empty(plan), first, groups, closes).flushed().tiers[i].pane(
                resolution_secs,
                baseline,
            ),
            plan,
            together(
                last_of(surviving(plan, heard(plan, groups), i), plan.archives[i].slots as nat),
            ),
        ),
{
    let t = played(Channel::empty(plan), first, groups, closes).flushed().tiers[i];
    let all = surviving(plan, heard(plan, groups), i);
    let kept = plan.archives[i].slots as nat;
    let last = last_of(all, kept);
    law_window_is_of_what_survived(plan, first, groups, closes, i);
    lemma_surviving_taken(plan, heard(plan, groups), i);
    let from: int = if all.len() <= kept {
        0
    } else {
        all.len() - kept
    };
    assert(last =~= all.subrange(from, all.len() as int));
    lemma_part_taken(plan, all, from, all.len() as int);
    law_a_window_tells_of_what_it_remembers(
        plan,
        t,
        together(last),
        resolution_secs,
        baseline,
    );
}

/// A window covers its archive: its resolution is the seconds that a slot spans, its span
/// that of the retained slots together, and it counts the observations behind them. It is
/// unknown where there are none, or more of them than tolerated carry no data, in
/// whatever arithmetic.
pub proof fn law_a_window_covers_its_archive<F: Arith>(o: Outlook<F>, i: int)
    requires
        0 <= i < o.tiers.len(),
    ensures
        ({
            let (t, pane) = (o.tiers[i], o.pane(i));
            let secs = t.spec.steps_per_slot * o.step_secs;
            &&& pane.resolution_secs == secs
            &&& pane.span_secs == secs * t.ring.slots.len()
            &&& pane.observations == count_of(folded(t.ring.slots))
            &&& pane.unknown <==> t.ring.slots.len() == 0 || t.spec.xff.lt(
                F::of_nat(absent(t.ring.slots)).quot(F::of_nat(t.ring.slots.len())),
            )
        }),
{
}

/// In whatever arithmetic, a window says of its slots what the accumulator that they fold to
/// says: of a scalar one the mean, the variance, the least and the greatest, of a
/// categorical one the counts, the dominant class and the entropy, and of one of vectors,
/// or of a codebook as one, the spread.
pub proof fn law_a_window_says_what_its_slots_fold_to<F: Arith>(
    t: Tier<F>,
    resolution_secs: nat,
    baseline: Option<Seq<F>>,
)
    ensures
        ({
            let pane = t.pane(resolution_secs, baseline);
            match folded(t.ring.slots) {
                Some(Summary::Scalar(m)) => {
                    &&& pane.mean == m.mean_of() && pane.variance == m.variance_of()
                    &&& pane.min == m.min_of() && pane.max == m.max_of()
                    &&& pane.observations == m.n
                },
                Some(Summary::Categorical(c)) => {
                    &&& pane.counts == Some(c)
                    &&& pane.dominant == dominant_of(c)
                    &&& pane.entropy == entropy_of::<F>(c)
                    &&& pane.observations == counts_total(c)
                },
                Some(Summary::Vector(a)) => {
                    &&& pane.spread == a.variance_of()
                    &&& pane.observations == a.n
                    &&& baseline matches Some(b) ==> pane.drift == a.drift_of(b)
                    &&& baseline is None ==> pane.drift is None
                },
                Some(Summary::Clusters(book)) => {
                    &&& pane.spread == book.total_of().variance_of()
                    &&& pane.observations == book.total_of().n
                    &&& baseline matches Some(b) ==> pane.drift == book.total_of().drift_of(b)
                    &&& baseline is None ==> pane.drift is None
                },
                None => pane.observations == 0,
            }
        }),
{
    if let Some(Summary::Clusters(b)) = folded(t.ring.slots) {
        lemma_total_counts(b.dim, b.items);
    }
}

/// A window is unknown where more than the tolerated share of its slots carry no data, and
/// not where just that share does.
pub proof fn law_a_window_is_unknown_past_the_tolerance(o: Outlook<Exact>, i: int, xff: real)
    requires
        0 <= i < o.tiers.len(),
        o.tiers[i].spec.xff == Exact::Finite(xff),
    ensures
        ({
            let slots = o.tiers[i].ring.slots;
            o.pane(i).unknown <==> slots.len() == 0 || (absent(slots) as real) > xff * (
            slots.len() as real)
        }),
{
    let slots = o.tiers[i].ring.slots;
    if slots.len() > 0 {
        law_share_is_of_the_whole(absent(slots), slots.len(), xff);
    }
}

/// Drift is measured from the centroid of the coarsest permitted window: it is the
/// distance between the two centroids, for every finer window.
pub proof fn law_drift_is_from_the_coarsest_permitted_window(
    o: Outlook<Exact>,
    i: int,
    b: int,
    vs: Seq<Seq<real>>,
    us: Seq<Seq<real>>,
    dim: nat,
    d: real,
)
    requires
        0 <= i < b < o.tiers.len(),
        o.permitted(b),
        forall|j: int| b < j < o.tiers.len() ==> !#[trigger] o.permitted(j),
        all_of_dim(vs, dim),
        all_of_dim(us, dim),
        vs.len() > 0,
        us.len() > 0,
        folded(o.tiers[i].ring.slots) == Some(Summary::Vector(gathered(vs, dim))),
        folded(o.tiers[b].ring.slots) == Some(Summary::Vector(gathered(us, dim))),
        is_root(
            d,
            dot(
                less(middle(vs, dim), middle(us, dim)),
                less(middle(vs, dim), middle(us, dim)),
            ),
        ),
    ensures
        o.pane(i).drift == Some(Exact::Finite(d)),
{
    assert(o.is_baseline(b) && b > i);
    let c = choose|c: int| o.is_baseline(c) && c > i;
    assert(o.is_baseline(c));
    if c < b {
        assert(!o.permitted(b));
    } else if b < c {
        assert(!o.permitted(c));
    }
    law_centroid_is_the_mean(us, dim);
    assert(o.baseline(i) == Some(lifted(middle(us, dim))));
    law_drift_is_the_distance_from_the_baseline(vs, dim, middle(us, dim), d);
}

/// In whatever arithmetic, the drift of a window is the root of the squared distance
/// between its centroid and that of the coarsest permitted window, where both are there,
/// and there is none elsewhere.
pub proof fn law_drift_is_between_two_centroids<F: Arith>(o: Outlook<F>, i: int, b: int)
    requires
        0 <= i < b < o.tiers.len(),
        o.permitted(b),
        forall|j: int| b < j < o.tiers.len() ==> !#[trigger] o.permitted(j),
    ensures
        ({
            let mine = center_of(folded(o.tiers[i].ring.slots));
            let from = center_of(folded(o.tiers[b].ring.slots));
            &&& mine is None || from is None ==> o.pane(i).drift is None
            &&& mine is Some && from is Some ==> o.pane(i).drift == Some(
                distance_sq(mine->0, from->0).root(),
            )
        }),
{
    assert(o.is_baseline(b) && b > i);
    let c = choose|c: int| o.is_baseline(c) && c > i;
    assert(o.is_baseline(c));
    if c < b {
        assert(!o.permitted(b));
    } else if b < c {
        assert(!o.permitted(c));
    }
}

/// The centroid behind an archive of vectors is the mean of the vectors behind its slots,
/// and there is none behind one without data, or of another kind.
pub proof fn law_the_centroid_is_of_the_retained_vectors(
    slots: Seq<Option<Summary<Exact>>>,
    vs: Seq<Seq<real>>,
    dim: nat,
)
    requires
        all_of_dim(vs, dim),
        vs.len() > 0,
    ensures
        folded(slots) == Some(Summary::Vector(gathered(vs, dim))) ==> center_of(folded(slots))
            == Some(lifted(middle(vs, dim))),
        folded(slots) is None ==> center_of(folded(slots)) is None,
        folded(slots) matches Some(Summary::Scalar(_)) ==> center_of(folded(slots)) is None,
        folded(slots) matches Some(Summary::Categorical(_)) ==> center_of(
            folded(slots),
        ) is None,
        folded(slots) matches Some(Summary::Clusters(b)) ==> center_of(folded(slots))
            == b.total_of().centroid_of(),
{
    law_centroid_is_the_mean(vs, dim);
}

} // verus!
