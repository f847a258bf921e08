//! What a signal takes, and what becomes of an observation.

use vstd::prelude::*;

use crate::arith::Arith;
use crate::categorical::{counted, lemma_total_of_none};
use crate::channel::{Channel, Observation, Sample};
use crate::clusters::{clouds_total, lemma_total_counts, Codebook};
use crate::decl::SignalPlan;
use crate::laws::classes::law_total_is_the_sum_of_the_counters;
use crate::laws::ladders::{lemma_units_span, ran, silence};
use crate::laws::scalars::total;
use crate::laws::signals::law_gaps_are_carried_as_unknown;
use crate::slot::Summary;

verus! {

/// A signal takes every observation of its kind and size, whatever its value, and no
/// other: a scalar one every number, a categorical one every class below its class count,
/// a vector one every vector of its dimension, and one with a codebook every vector.
pub proof fn law_a_signal_takes_what_is_of_its_kind<F: Arith>(
    plan: SignalPlan<F>,
    x: F,
    class: nat,
    v: Seq<F>,
)
    ensures
        plan.takes(Sample::Scalar(x)) <==> plan.kind is Scalar,
        plan.takes(Sample::Class(class)) <==> plan.kind is Categorical && class < plan.classes,
        plan.takes(Sample::Vector(v)) <==> plan.kind is Vector && v.len() == plan.dim
            || plan.kind is Clusters,
{
}

/// An observation is of the value that was given.
pub proof fn law_an_observation_is_of_the_value_given<R>(x: R, class: usize, v: Vec<R>)
    ensures
        Observation::Scalar(x)@ == Sample::Scalar(x),
        Observation::<R>::Class(class)@ == Sample::<R>::Class(class as nat),
        Observation::Vector(v)@ == Sample::Vector(v@),
{
}

/// Whatever a signal takes it can absorb, but for a codebook, which absorbs vectors of its
/// dimension only.
pub proof fn law_a_signal_absorbs_what_it_takes<F: Arith>(plan: SignalPlan<F>, obs: Sample<F>)
    ensures
        !(plan.kind is Clusters) ==> plan.absorbs(obs),
        plan.kind is Clusters ==> (plan.absorbs(obs) <==> match obs {
            Sample::Vector(v) => v.len() == plan.dim,
            _ => true,
        }),
{
}

/// An observation is refused where it is not too late and the signal does not take it, and
/// nowhere else.
pub proof fn law_an_observation_is_refused_only_for_its_kind<F: Arith>(
    c: Channel<F>,
    step: u64,
    obs: Sample<F>,
)
    ensures
        c.step is None ==> (c.refuses(step, obs) <==> !c.plan.takes(obs)),
        c.step matches Some(cur) ==> (c.refuses(step, obs) <==> step >= cur && !c.plan.takes(
            obs,
        )),
{
}

/// A signal that nothing was observed of has its declared archives, finest first, and
/// nothing in them.
pub proof fn law_a_new_signal_is_empty<F: Arith>(plan: SignalPlan<F>, i: int)
    requires
        plan.valid(),
        0 <= i < plan.archives.len(),
    ensures
        ({
            let c = Channel::empty(plan);
            let t = c.tiers[i];
            &&& c.plan == plan && c.step is None && !c.closed && c.acc is None
            &&& c.tiers.len() == plan.archives.len()
            &&& t.spec == plan.archives[i]
            &&& t.ring.capacity == plan.archives[i].slots
            &&& t.ring.written == 0 && t.ring.slots.len() == 0
            &&& t.pending is None && t.seen == 0 && t.unknown == 0
            &&& i == 0 ==> t.units == plan.archives[0].steps_per_slot
            &&& i > 0 ==> t.units == plan.archives[i].steps_per_slot as int
                / plan.archives[i - 1].steps_per_slot as int
        }),
{
    assert(plan.archives[i].steps_per_slot > 0);
    if i > 0 {
        lemma_units_span(plan, i);
    }
}

/// A slot without observations has its signal's size, and takes one more observation as
/// its accumulator does, in whatever arithmetic.
pub proof fn law_a_slot_records_in_its_accumulator<F: Arith>(
    plan: SignalPlan<F>,
    s: Summary<F>,
    x: F,
    class: nat,
    v: Seq<F>,
)
    ensures
        plan.blank().count() == 0,
        plan.kind is Scalar ==> plan.blank() is Scalar,
        plan.kind is Categorical ==> (plan.blank() matches Summary::Categorical(c) && c
            == Seq::new(plan.classes, |i: int| 0u64)),
        plan.kind is Vector ==> (plan.blank() matches Summary::Vector(a) && a.n == 0
            && a.sum.len() == plan.dim),
        plan.kind is Clusters ==> plan.blank() == Summary::Clusters(
            Codebook::<F> { k: plan.k, dim: plan.dim, items: Seq::empty() },
        ),
        s matches Summary::Scalar(m) ==> s.with(Sample::Scalar(x)) == Summary::Scalar(m.with(x)),
        s matches Summary::Categorical(c) ==> s.with(Sample::Class(class))
            == Summary::<F>::Categorical(counted(c, class as int)),
        s matches Summary::Vector(a) ==> s.with(Sample::Vector(v)) == Summary::Vector(a.with(v)),
        s matches Summary::Clusters(b) ==> s.with(Sample::Vector(v)) == Summary::Clusters(
            b.with(v),
        ),
{
    lemma_total_of_none(plan.classes);
}

/// A slot counts the observations in its accumulator, in whatever arithmetic.
pub proof fn law_a_slot_counts_its_observations<F: Arith>(s: Summary<F>)
    ensures
        match s {
            Summary::Scalar(m) => s.count() == m.n,
            Summary::Categorical(c) => s.count() as real == total(
                c.map_values(|x: u64| x as real),
            ),
            Summary::Vector(a) => s.count() == a.n,
            Summary::Clusters(b) => s.count() == clouds_total(b.dim, b.items).n,
        },
{
    match s {
        Summary::Categorical(c) => {
            law_total_is_the_sum_of_the_counters(c);
        },
        Summary::Clusters(b) => {
            lemma_total_counts(b.dim, b.items);
        },
        _ => {},
    }
}

/// Slots can be merged where they are of one kind and size, and no counter would pass what
/// can be counted.
pub proof fn law_slots_of_one_kind_and_size_can_be_merged<F: Arith>(a: Summary<F>, b: Summary<F>)
    ensures
        a.addable(b) <==> match (a, b) {
            (Summary::Scalar(x), Summary::Scalar(y)) => x.n + y.n <= u64::MAX,
            (Summary::Categorical(x), Summary::Categorical(y)) => x.len() == y.len() && forall|
                i: int,
            |
                0 <= i < x.len() ==> #[trigger] x[i] + #[trigger] y[i] <= u64::MAX,
            (Summary::Vector(x), Summary::Vector(y)) => x.sum.len() == y.sum.len() && x.n + y.n
                <= u64::MAX,
            (Summary::Clusters(x), Summary::Clusters(y)) => x.wf() && y.wf() && x.dim == y.dim
                && x.count() + y.count() <= u64::MAX,
            _ => false,
        },
{
}

/// Slots of one kind merge as their accumulators do, in whatever arithmetic.
pub proof fn law_slots_merge_as_their_accumulators_do<F: Arith>(a: Summary<F>, b: Summary<F>)
    ensures
        match (a, b) {
            (Summary::Scalar(x), Summary::Scalar(y)) => a.joined(b) == Summary::Scalar(
                x.joined(y),
            ),
            (Summary::Categorical(x), Summary::Categorical(y)) => a.joined(b)
                matches Summary::Categorical(z) && z.len() == x.len() && forall|i: int|
                0 <= i < x.len() && x.len() == y.len() && x[i] + y[i] <= u64::MAX ==> (
                #[trigger] z[i]) == x[i] + y[i],
            (Summary::Vector(x), Summary::Vector(y)) => a.joined(b) == Summary::Vector(
                x.joined(y),
            ),
            (Summary::Clusters(x), Summary::Clusters(y)) => a.joined(b) == Summary::Clusters(
                x.joined(y),
            ),
            _ => true,
        },
{
}

/// The first observation opens its step. It leaves the archives alone, and so does every
/// further one in the step in progress: what the signal takes is recorded with what was
/// observed in the step before, and what it does not take changes nothing else.
pub proof fn law_observations_gather_in_the_step_in_progress<F: Arith>(
    c: Channel<F>,
    step: u64,
    obs: Sample<F>,
)
    requires
        c.step is None || c.step == Some(step),
    ensures
        ({
            let now = c.observed(step, obs);
            &&& now.plan == c.plan
            &&& now.step == Some(step)
            &&& now.tiers == c.tiers
            &&& !c.plan.takes(obs) ==> now.acc == c.acc && now.closed == c.closed
            &&& c.plan.takes(obs) ==> {
                &&& !now.closed
                &&& c.acc is None ==> now.acc == Some(c.plan.blank().with(obs))
                &&& c.acc matches Some(s) ==> now.acc == Some(s.with(obs))
            }
        }),
{
}

/// An observation in a later step hands the step in progress to the archives, unless it was
/// closed, and then the steps between, of which nothing is known, as many of them as the
/// finest archive retains. It begins its own step with nothing but itself, where it is
/// taken.
pub proof fn law_a_later_observation_closes_the_step_in_progress<F: Arith>(
    c: Channel<F>,
    step: u64,
    obs: Sample<F>,
)
    requires
        c.step is Some,
        c.step->0 < step,
        c.plan.archives.len() > 0,
    ensures
        ({
            let now = c.observed(step, obs);
            let (between, most) = (
                step - c.step->0 - 1,
                c.plan.archives[0].steps_per_slot * c.plan.archives[0].slots,
            );
            let quiet = if between < most {
                between
            } else {
                most
            };
            &&& now.plan == c.plan
            &&& now.step == Some(step)
            &&& !now.closed
            &&& now.acc == if c.plan.takes(obs) {
                Some(c.plan.blank().with(obs))
            } else {
                None
            }
            &&& c.closed ==> now.tiers == ran(c.tiers, silence(quiet as nat))
            &&& !c.closed ==> now.tiers == ran(c.tiers, seq![c.acc] + silence(quiet as nat))
        }),
{
    law_gaps_are_carried_as_unknown(c, step);
}

/// Closing the step in progress hands what was observed in it to the archives, and nothing
/// where nothing was. There is nothing to close in a closed step, or before the first.
pub proof fn law_closing_a_step_hands_it_on<F: Arith>(c: Channel<F>)
    ensures
        c.flushed().plan == c.plan,
        c.flushed().step == c.step,
        c.step is None || c.closed ==> c.flushed() == c,
        c.step is Some && !c.closed ==> {
            &&& c.flushed().tiers == ran(c.tiers, seq![c.acc])
            &&& c.flushed().acc is None
            &&& c.flushed().closed
        },
{
    assert(seq![c.acc].drop_last() =~= Seq::empty());
    assert(ran(c.tiers, seq![c.acc].drop_last()) == c.tiers);
}

/// An observation that comes in an earlier step than the one in progress is passed over.
pub proof fn law_an_earlier_observation_is_passed_over<F: Arith>(
    c: Channel<F>,
    step: u64,
    obs: Sample<F>,
)
    requires
        c.step is Some,
        step < c.step->0,
    ensures
        c.stale(step),
        c.observed(step, obs) == c,
        !c.refuses(step, obs),
{
}

} // verus!
