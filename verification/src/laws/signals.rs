//! One signal over time: steps, gaps, and what comes too late.

use vstd::prelude::*;

use crate::arith::Arith;
use crate::channel::{least, lemma_flushed, Channel, Sample};
use crate::decl::SignalPlan;
use crate::exact::Exact;
use crate::ladder::{lemma_idled, stepped, Tier};
use crate::laws::consolidation::{
    all_taken, drops_nothing, each_remembered, law_every_slot_remembers_what_survived,
    law_fold_remembers_all, law_what_is_not_dropped_survives, lemma_part_taken,
    lemma_surviving_taken, merges_exactly, remembered, spans, summarised, surviving, together,
};
use crate::laws::ladders::{
    at_boundary, law_gap_is_silence, law_long_gap_leaves_no_data, ran, silence,
};
use crate::laws::rings::{last_of, law_sparse_follows_the_tolerance};
use crate::ring::{absent, folded};
use crate::slot::Summary;

verus! {

/// The signal after the observations of one step, one after the other.
pub open spec fn observed_all<F: Arith>(
    c: Channel<F>,
    step: u64,
    group: Seq<Sample<F>>,
) -> Channel<F>
    decreases group.len(),
{
    if group.len() == 0 {
        c
    } else {
        observed_all(c, step, group.drop_last()).observed(step, group.last())
    }
}

/// The signal after the observations of consecutive steps, from `first` on. The step is
/// closed after the groups in `closes`.
pub open spec fn played<F: Arith>(
    c: Channel<F>,
    first: u64,
    groups: Seq<Seq<Sample<F>>>,
    closes: Set<int>,
) -> Channel<F>
    decreases groups.len(),
{
    if groups.len() == 0 {
        c
    } else {
        let now = observed_all(
            played(c, first, groups.drop_last(), closes),
            (first + groups.len() - 1) as u64,
            groups.last(),
        );
        if closes.contains(groups.len() - 1) {
            now.flushed()
        } else {
            now
        }
    }
}

/// Those observations of a step that the signal takes.
pub open spec fn taken<F: Arith>(
    plan: SignalPlan<F>,
    group: Seq<Sample<F>>,
) -> Seq<Sample<F>>
    decreases group.len(),
{
    if group.len() == 0 {
        group
    } else if plan.takes(group.last()) {
        taken(plan, group.drop_last()).push(group.last())
    } else {
        taken(plan, group.drop_last())
    }
}

/// How many groups at the end are empty.
pub open spec fn quiet<T>(groups: Seq<Seq<T>>) -> nat
    decreases groups.len(),
{
    if groups.len() == 0 || groups.last().len() > 0 {
        0
    } else {
        quiet(groups.drop_last()) + 1
    }
}

/// The groups, with every run of empty ones that is longer than `most` cut down to that.
pub open spec fn shortened<T>(groups: Seq<Seq<T>>, most: int) -> Seq<Seq<T>>
    decreases groups.len(),
{
    if groups.len() == 0 {
        groups
    } else {
        let before = shortened(groups.drop_last(), most);
        if groups.last().len() == 0 && quiet(before) >= most {
            before
        } else {
            before.push(groups.last())
        }
    }
}

/// What a signal hears of the observations of consecutive steps: in every step those that
/// it takes, and of a silence no more than the finest archive retains. A step in which
/// all observations were refused is no silence, but nothing was heard in it.
pub open spec fn heard<F: Arith>(
    plan: SignalPlan<F>,
    groups: Seq<Seq<Sample<F>>>,
) -> Seq<Seq<Sample<F>>> {
    shortened(groups, plan.retention()).map_values(|group: Seq<Sample<F>>| taken(plan, group))
}

/// Whether the signal takes every observation of every group.
pub open spec fn takes_all<F: Arith>(
    plan: SignalPlan<F>,
    groups: Seq<Seq<Sample<F>>>,
) -> bool {
    forall|i: int, j: int|
        0 <= i < groups.len() && 0 <= j < groups[i].len() ==> plan.takes(#[trigger] groups[i][j])
}

/// Whether nothing was observed from the `a`th group up to the `b`th.
pub open spec fn is_silent<T>(groups: Seq<Seq<T>>, a: int, b: int) -> bool {
    forall|i: int| a <= i < b ==> (#[trigger] groups[i]).len() == 0
}

/// Whether no silence among the groups is longer than `most` steps.
pub open spec fn no_silence_over<T>(groups: Seq<Seq<T>>, most: int) -> bool {
    forall|a: int, b: int|
        0 <= a <= b <= groups.len() && #[trigger] is_silent(groups, a, b) ==> b - a <= most
}

proof fn lemma_quiet<T>(groups: Seq<Seq<T>>)
    ensures
        quiet(groups) <= groups.len(),
        is_silent(groups, groups.len() - quiet(groups), groups.len() as int),
        groups.len() > 0 && groups[0].len() > 0 ==> quiet(groups) < groups.len(),
    decreases groups.len(),
{
    if groups.len() > 0 && groups.last().len() == 0 {
        let before = groups.drop_last();
        lemma_quiet(before);
        assert forall|i: int|
            groups.len() - quiet(groups) <= i < groups.len() implies (#[trigger] groups[i]).len()
            == 0 by {
            if i < before.len() {
                assert(before[i] == groups[i]);
            }
        }
    }
}

proof fn lemma_shortened<T>(groups: Seq<Seq<T>>, most: int)
    requires
        most >= 0,
    ensures
        quiet(shortened(groups, most)) == least(quiet(groups) as int, most),
    decreases groups.len(),
{
    if groups.len() > 0 {
        let before = shortened(groups.drop_last(), most);
        lemma_shortened(groups.drop_last(), most);
        assert(before.push(groups.last()).drop_last() =~= before);
    }
}

/// Silences that are not too long are kept as they are.
proof fn lemma_nothing_shortened<T>(groups: Seq<Seq<T>>, most: int)
    requires
        no_silence_over(groups, most),
    ensures
        shortened(groups, most) == groups,
    decreases groups.len(),
{
    if groups.len() > 0 {
        let before = groups.drop_last();
        assert forall|a: int, b: int|
            0 <= a <= b <= before.len() && #[trigger] is_silent(before, a, b) implies b - a
            <= most by {
            assert forall|i: int| a <= i < b implies (#[trigger] groups[i]).len() == 0 by {
                assert(before[i] == groups[i]);
            }
            assert(is_silent(groups, a, b));
        }
        lemma_nothing_shortened(before, most);
        lemma_quiet(groups);
        assert(before.push(groups.last()) =~= groups);
    }
}

proof fn lemma_all_of_group_taken<F: Arith>(plan: SignalPlan<F>, group: Seq<Sample<F>>)
    requires
        forall|j: int| 0 <= j < group.len() ==> plan.takes(#[trigger] group[j]),
    ensures
        taken(plan, group) == group,
    decreases group.len(),
{
    if group.len() > 0 {
        let before = group.drop_last();
        assert forall|j: int| 0 <= j < before.len() implies plan.takes(#[trigger] before[j]) by {
            assert(before[j] == group[j]);
        }
        lemma_all_of_group_taken(plan, before);
        assert(plan.takes(group[group.len() - 1]));
        assert(before.push(group.last()) =~= group);
    }
}

/// Where every observation is taken, and no silence is longer than the finest archive
/// retains, all is heard as it was observed.
pub proof fn law_what_is_taken_in_time_is_heard<F: Arith>(
    plan: SignalPlan<F>,
    groups: Seq<Seq<Sample<F>>>,
)
    requires
        takes_all(plan, groups),
        no_silence_over(groups, plan.retention()),
    ensures
        heard(plan, groups) == groups,
{
    lemma_nothing_shortened(groups, plan.retention());
    assert forall|i: int| 0 <= i < groups.len() implies taken(plan, #[trigger] groups[i])
        == groups[i] by {
        assert forall|j: int| 0 <= j < groups[i].len() implies plan.takes(
            #[trigger] groups[i][j],
        ) by {}
        lemma_all_of_group_taken(plan, groups[i]);
    }
    assert(heard(plan, groups) =~= groups);
}

/// A step whose observations were all refused is a step in which nothing was heard.
pub proof fn law_a_refused_step_is_unknown<F: Arith>(
    plan: SignalPlan<F>,
    group: Seq<Sample<F>>,
)
    requires
        forall|j: int| 0 <= j < group.len() ==> !plan.takes(#[trigger] group[j]),
    ensures
        taken(plan, group).len() == 0,
        remembered(plan, taken(plan, group)) is None,
    decreases group.len(),
{
    if group.len() > 0 {
        let before = group.drop_last();
        assert forall|j: int| 0 <= j < before.len() implies !plan.takes(#[trigger] before[j]) by {
            assert(before[j] == group[j]);
        }
        law_a_refused_step_is_unknown(plan, before);
        assert(!plan.takes(group[group.len() - 1]));
    }
}

/// The step `step` is in progress, `group` was heard in it, and before it the ladder
/// ran as `tiers`.
spec fn in_step<F: Arith>(
    c: Channel<F>,
    plan: SignalPlan<F>,
    step: u64,
    group: Seq<Sample<F>>,
    tiers: Seq<Tier<F>>,
) -> bool {
    &&& c.plan == plan
    &&& c.step == Some(step)
    &&& !c.closed
    &&& c.acc == remembered(plan, group)
    &&& c.tiers == tiers
}

proof fn lemma_observed_all<F: Arith>(
    c: Channel<F>,
    plan: SignalPlan<F>,
    step: u64,
    group: Seq<Sample<F>>,
)
    requires
        c.plan == plan,
        group.len() > 0,
        c.step is None ==> c.acc is None && !c.closed,
        c.step matches Some(cur) ==> cur < step,
    ensures
        in_step(
            observed_all(c, step, group),
            plan,
            step,
            taken(plan, group),
            c.at_step(step).tiers,
        ),
    decreases group.len(),
{
    let before = group.drop_last();
    let last = group.last();
    assert(taken(plan, before).push(last).drop_last() =~= taken(plan, before));
    if before.len() == 0 {
        assert(summarised(plan, taken(plan, before)) == plan.blank());
        assert(observed_all(c, step, before) == c);
    } else {
        lemma_observed_all(c, plan, step, before);
    }
}

/// The ladder of a signal runs on the steps as they were heard: a step in which something
/// was is handed to it as the slot that it was recorded in, and one in which nothing was,
/// be it that nothing was observed or that all was refused, as unknown. That a step was
/// closed before the next one began makes no difference.
pub proof fn law_ladder_runs_on_what_was_heard<F: Arith>(
    plan: SignalPlan<F>,
    first: u64,
    groups: Seq<Seq<Sample<F>>>,
    closes: Set<int>,
)
    requires
        groups.len() > 0,
        groups[0].len() > 0,
        groups.last().len() > 0,
        first + groups.len() <= u64::MAX,
    ensures
        played(Channel::empty(plan), first, groups, closes).step == Some(
            (first + groups.len() - 1) as u64,
        ),
        played(Channel::empty(plan), first, groups, closes).flushed().tiers == ran(
            Channel::empty(plan).tiers,
            each_remembered(plan, heard(plan, groups)),
        ),
{
    lemma_played(plan, first, groups, closes);
    let short = shortened(groups, plan.retention());
    assert(short.take(short.len() as int) =~= short);
    assert(each_remembered(plan, heard(plan, groups)) =~= units_of(plan, short));
}

/// What is handed to the ladder for the groups.
spec fn units_of<F: Arith>(
    plan: SignalPlan<F>,
    groups: Seq<Seq<Sample<F>>>,
) -> Seq<Option<Summary<F>>> {
    Seq::new(groups.len(), |i: int| remembered(plan, taken(plan, groups[i])))
}

proof fn lemma_played<F: Arith>(
    plan: SignalPlan<F>,
    first: u64,
    groups: Seq<Seq<Sample<F>>>,
    closes: Set<int>,
)
    requires
        groups.len() > 0,
        groups[0].len() > 0,
        first + groups.len() <= u64::MAX,
    ensures
        ({
            let c = played(Channel::empty(plan), first, groups, closes);
            let short = shortened(groups, plan.retention());
            &&& c.plan == plan
            &&& c.step == Some((first + groups.len() - 1 - quiet(groups)) as u64)
            &&& c.flushed().tiers == ran(
                Channel::empty(plan).tiers,
                units_of(plan, short.take(short.len() - quiet(short))),
            )
            &&& quiet(short) == least(quiet(groups) as int, plan.retention())
            &&& quiet(groups) < groups.len()
        }),
    decreases groups.len(),
{
    let most = plan.retention();
    let tiers = Channel::empty(plan).tiers;
    let before = groups.drop_last();
    let step = (first + groups.len() - 1) as u64;
    let last = groups.last();
    lemma_retention(plan);
    lemma_shortened(groups, most);
    lemma_quiet(groups);
    let c = played(Channel::empty(plan), first, before, closes);
    let now = observed_all(c, step, last);
    let (was, short) = (shortened(before, most), shortened(groups, most));
    lemma_quiet(was);
    let head = was.take(was.len() - quiet(was));
    if before.len() > 0 {
        lemma_played(plan, first, before, closes);
        lemma_shortened(before, most);
    }
    if last.len() > 0 {
        lemma_observed_all(c, plan, step, last);
        let unit = remembered(plan, taken(plan, last));
        let gap = quiet(was);
        assert(short.take(short.len() as int) =~= was.push(last));
        assert(now.flushed().tiers == stepped(c.at_step(step).tiers, unit));
        if before.len() == 0 {
            assert(was.len() == 0);
            assert(c.at_step(step).tiers == ran(tiers, units_of(plan, was)));
        } else {
            assert(c.gap(step) == gap);
            law_gap_is_silence(c.flushed().tiers, gap);
            lemma_ran_concat(tiers, units_of(plan, head), silence(gap));
            assert forall|i: int| was.len() - gap <= i < was.len() implies units_of(
                plan,
                was,
            )[i] is None by {
                assert(was[i].len() == 0);
                assert(taken(plan, was[i]).len() == 0);
            }
            assert(units_of(plan, head) + silence(gap) =~= units_of(plan, was));
        }
        assert(units_of(plan, was.push(last)).drop_last() =~= units_of(plan, was));
        assert(units_of(plan, was.push(last)).last() == unit);
    } else {
        assert(now == c);
        assert(short.take(short.len() - quiet(short)) =~= head);
    }
}

proof fn lemma_ran_concat<F: Arith>(
    tiers: Seq<Tier<F>>,
    a: Seq<Option<Summary<F>>>,
    b: Seq<Option<Summary<F>>>,
)
    ensures
        ran(tiers, a + b) == ran(ran(tiers, a), b),
    decreases b.len(),
{
    if b.len() == 0 {
        assert(a + b =~= a);
    } else {
        lemma_ran_concat(tiers, a, b.drop_last());
        assert((a + b).drop_last() =~= a + b.drop_last());
    }
}

/// What a window reads as is what was heard, in exact arithmetic and at every resolution:
/// the retained slots fold to the slot that all the observations beneath them were
/// recorded in, but for those that an archive dropped as too sparse. It does not matter
/// which steps were closed before the next one began.
pub proof fn law_window_is_of_what_survived(
    plan: SignalPlan<Exact>,
    first: u64,
    groups: Seq<Seq<Sample<Exact>>>,
    closes: Set<int>,
    i: int,
)
    requires
        plan.valid(),
        merges_exactly(plan),
        groups.len() > 0,
        groups[0].len() > 0,
        groups.last().len() > 0,
        first + groups.len() <= u64::MAX,
        all_taken(plan, together(heard(plan, groups))),
        together(heard(plan, groups)).len() <= u64::MAX,
        0 <= i < plan.archives.len(),
    ensures
        folded(
            played(Channel::empty(plan), first, groups, closes).flushed().tiers[i].ring.slots,
        ) == remembered(
            plan,
            together(
                last_of(
                    surviving(plan, heard(plan, groups), i),
                    plan.archives[i].slots as nat,
                ),
            ),
        ),
{
    let kept = plan.archives[i].slots as nat;
    let steps = heard(plan, groups);
    law_ladder_runs_on_what_was_heard(plan, first, groups, closes);
    law_every_slot_remembers_what_survived(plan, steps, i);
    let all = surviving(plan, steps, i);
    let last = last_of(all, kept);
    lemma_surviving_taken(plan, steps, i);
    let from: int = if all.len() <= kept {
        0
    } else {
        all.len() - kept
    };
    assert(last =~= all.subrange(from, all.len() as int));
    lemma_part_taken(plan, all, from, all.len() as int);
    assert(last_of(each_remembered(plan, all), kept) =~= each_remembered(plan, last));
    law_fold_remembers_all(plan, last);
}

/// Where no archive dropped a slot as too sparse, a window is of everything that was
/// heard in the steps that its slots span.
pub proof fn law_window_is_of_the_retained_observations(
    plan: SignalPlan<Exact>,
    first: u64,
    groups: Seq<Seq<Sample<Exact>>>,
    closes: Set<int>,
    i: int,
)
    requires
        plan.valid(),
        merges_exactly(plan),
        groups.len() > 0,
        groups[0].len() > 0,
        groups.last().len() > 0,
        first + groups.len() <= u64::MAX,
        all_taken(plan, together(heard(plan, groups))),
        together(heard(plan, groups)).len() <= u64::MAX,
        0 <= i < plan.archives.len(),
        forall|a: int| 0 <= a <= i ==> drops_nothing(plan, heard(plan, groups), a),
    ensures
        folded(
            played(Channel::empty(plan), first, groups, closes).flushed().tiers[i].ring.slots,
        ) == remembered(
            plan,
            together(
                last_of(
                    spans(heard(plan, groups), plan.archives[i].steps_per_slot as nat),
                    plan.archives[i].slots as nat,
                ),
            ),
        ),
{
    law_window_is_of_what_survived(plan, first, groups, closes, i);
    law_what_is_not_dropped_survives(plan, heard(plan, groups), i);
}

/// However long a silence is, once it is longer than the finest archive retains it counts
/// as just that: observations after two such silences leave the same behind, but for the
/// step that they are in.
pub proof fn law_long_silences_are_alike<F: Arith>(
    c: Channel<F>,
    a: u64,
    b: u64,
    obs: Sample<F>,
)
    requires
        c.step is Some,
        a > c.step->0 + c.plan.retention(),
        b > c.step->0 + c.plan.retention(),
    ensures
        c.gap(a) == c.plan.retention(),
        c.observed(a, obs) == (Channel { step: Some(a), ..c.observed(b, obs) }),
        c.refuses(a, obs) == c.refuses(b, obs),
{
    lemma_retention(c.plan);
}

/// Closing a step twice is closing it once.
pub proof fn law_flush_is_idempotent<F: Arith>(c: Channel<F>)
    ensures
        c.flushed().flushed() == c.flushed(),
{
}

/// An observation that comes too late changes nothing, and is not refused.
pub proof fn law_late_observations_are_ignored<F: Arith>(
    c: Channel<F>,
    step: u64,
    obs: Sample<F>,
)
    requires
        c.stale(step),
    ensures
        c.observed(step, obs) == c,
        !c.refuses(step, obs),
{
}

/// A refused observation is not recorded: the step that it is in is opened, and nothing
/// was observed in it that was not before.
pub proof fn law_refused_observations_are_not_recorded<F: Arith>(
    c: Channel<F>,
    step: u64,
    obs: Sample<F>,
)
    requires
        c.refuses(step, obs),
    ensures
        c.observed(step, obs) == c.at_step(step),
        c.step matches Some(cur) && cur < step ==> c.observed(step, obs).acc is None,
        c.step == Some(step) ==> c.observed(step, obs) == c,
{
}

/// Time does not go back, and a signal stays what it was declared as.
pub proof fn law_time_does_not_go_back<F: Arith>(c: Channel<F>, step: u64, obs: Sample<F>)
    ensures
        c.observed(step, obs).step is Some,
        c.observed(step, obs).step->0 >= step,
        c.step matches Some(cur) ==> c.observed(step, obs).step->0 >= cur,
        c.observed(step, obs).plan == c.plan,
        c.flushed().plan == c.plan,
{
}

pub(crate) proof fn lemma_retention<F: Arith>(plan: SignalPlan<F>)
    ensures
        plan.retention() >= 0,
{
    let (a, b) = (plan.archives[0].steps_per_slot as int, plan.archives[0].slots as int);
    assert(a * b >= 0) by (nonlinear_arith)
        requires
            a >= 0,
            b >= 0,
    ;
}

/// Steps without an observation are carried as unknown: a later step hands the one in
/// progress to the ladder, unless it was closed, and after it the silence, as much of
/// it as the finest archive retains.
pub proof fn law_gaps_are_carried_as_unknown<F: Arith>(c: Channel<F>, step: u64)
    requires
        c.step is Some,
        c.step->0 < step,
    ensures
        !c.closed ==> c.at_step(step).tiers == ran(
            c.tiers,
            seq![c.acc] + silence(c.gap(step)),
        ),
        c.closed ==> c.at_step(step).tiers == ran(c.tiers, silence(c.gap(step))),
        c.gap(step) <= step - c.step->0 - 1,
        step - c.step->0 - 1 <= c.plan.retention() ==> c.gap(step) == step - c.step->0 - 1,
{
    lemma_retention(c.plan);
    law_gap_is_silence(c.flushed().tiers, c.gap(step));
    lemma_ran_concat(c.tiers, seq![c.acc], silence(c.gap(step)));
    assert(seq![c.acc].drop_last() =~= Seq::empty());
    assert(ran(c.tiers, seq![c.acc].drop_last()) == c.tiers);
}

/// After a silence longer than the finest archive retains, nothing in it carries data:
/// it reads as unknown, and not as zero.
pub proof fn law_long_silence_reads_unknown(
    c: Channel<Exact>,
    step: u64,
    resolution_secs: nat,
    baseline: Option<Seq<Exact>>,
)
    requires
        c.wf(),
        c.step is Some,
        step > c.step->0 + c.plan.retention(),
        at_boundary(c.flushed().tiers[0]),
    ensures
        ({
            let t = c.at_step(step).tiers[0];
            let pane = t.pane(resolution_secs, baseline);
            &&& t.ring.slots.len() == c.plan.archives[0].slots
            &&& absent(t.ring.slots) == t.ring.slots.len()
            &&& pane.mean is None && pane.min is None && pane.max is None
            &&& pane.variance is None && pane.counts is None && pane.spread is None
            &&& pane.observations == 0
            &&& c.plan.archives[0].xff != Exact::Finite(1real) ==> pane.unknown
        }),
{
    let done = c.flushed();
    let spec = c.plan.archives[0];
    lemma_flushed(c, 0);
    assert(done.wf());
    let t = done.tiers[0];
    assert(t.wf(done.plan.shape()));
    assert(t.spec == spec && t.units == spec.steps_per_slot);
    assert(spec.slots * t.units == c.plan.retention()) by (nonlinear_arith)
        requires
            t.units == spec.steps_per_slot,
            c.plan.retention() == spec.steps_per_slot * spec.slots,
    ;
    assert(c.gap(step) == c.plan.retention());
    law_long_gap_leaves_no_data(done.tiers, c.gap(step));
    lemma_idled(done.tiers, c.gap(step), c.plan.shape(), 0);
    let after = c.at_step(step).tiers[0];
    assert(after.spec == spec);
    assert(Exact::of_nat(0).le(spec.xff));
    if spec.xff != Exact::Finite(1real) {
        law_sparse_follows_the_tolerance(after.ring, spec.xff->Finite_0);
    }
}

} // verus!
