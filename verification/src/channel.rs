//! One signal of a store: the step in progress, and the ladder beneath it.

use vstd::prelude::*;

use crate::arith::{Arith, Real};
use crate::categorical::{
    counted, lemma_total_of_class, lemma_total_of_counted, lemma_total_of_none,
};
use crate::clusters::lemma_compacted_keeps;
use crate::decl::{ArchiveSpec, SignalPlan, SignalSpec};
use crate::kind::SlotKind;
use crate::ladder::{
    all_wf, archives_wf, has_load, has_slots, idled, laden, lemma_archives_wf, lemma_idled,
    lemma_stepped, push_gap, push_step, roomy, same_specs, stepped, tiers_of, ArchiveState, Tier,
};
use crate::ring::{count_of, fits};
use crate::slot::{summary_of, Slot, Summary};
use crate::vector::Cloud;

verus! {

/// One observation.
#[derive(Clone, Debug)]
pub enum Observation<R> {
    Scalar(R),
    Class(usize),
    Vector(Vec<R>),
}

/// What was observed.
#[verifier::ext_equal]
pub enum Sample<F> {
    Scalar(F),
    Class(nat),
    Vector(Seq<F>),
}

impl<R> View for Observation<R> {
    type V = Sample<R>;

    open spec fn view(&self) -> Sample<R> {
        match self {
            Observation::Scalar(x) => Sample::Scalar(*x),
            Observation::Class(c) => Sample::Class(*c as nat),
            Observation::Vector(v) => Sample::Vector(v@),
        }
    }
}

impl<F: Arith> Summary<F> {
    /// One more observation, of the kind the slot is for.
    pub open spec fn with(self, obs: Sample<F>) -> Self {
        match (self, obs) {
            (Summary::Scalar(m), Sample::Scalar(x)) => Summary::Scalar(m.with(x)),
            (Summary::Categorical(c), Sample::Class(k)) => Summary::Categorical(
                counted(c, k as int),
            ),
            (Summary::Vector(v), Sample::Vector(x)) => Summary::Vector(v.with(x)),
            (Summary::Clusters(b), Sample::Vector(x)) => Summary::Clusters(b.with(x)),
            _ => self,
        }
    }
}

impl<R: Real> SignalSpec<R> {
    /// Whether an observation that the signal takes can be absorbed.
    pub(crate) fn absorbs(&self, obs: &Observation<R>) -> (r: bool)
        ensures
            r == self@.absorbs(obs@),
    {
        match (self.kind, obs) {
            (SlotKind::Clusters, Observation::Vector(x)) => x.len() == self.dim,
            _ => true,
        }
    }
}

impl<F: Arith> SignalPlan<F> {
    /// Whether the signal takes the observation: it is of the signal's kind, and
    /// of its size.
    pub open spec fn takes(self, obs: Sample<F>) -> bool {
        match (self.kind, obs) {
            (SlotKind::Scalar, Sample::Scalar(_)) => true,
            (SlotKind::Categorical, Sample::Class(k)) => k < self.classes,
            (SlotKind::Vector, Sample::Vector(x)) => x.len() == self.dim,
            (SlotKind::Clusters, Sample::Vector(_)) => true,
            _ => false,
        }
    }

    /// Whether an observation that the signal takes can be absorbed: a codebook
    /// takes nothing of another dimension.
    pub open spec fn absorbs(self, obs: Sample<F>) -> bool {
        self.kind is Clusters ==> {
            obs matches Sample::Vector(x) ==> x.len() == self.dim
        }
    }

    /// The constituents of a slot of the `i`th archive: steps for the finest,
    /// slots of the archive below for the others.
    pub open spec fn units(self, i: int) -> int {
        if i == 0 {
            self.archives[0].steps_per_slot as int
        } else {
            self.archives[i].steps_per_slot as int / self.archives[i - 1].steps_per_slot as int
        }
    }

    /// The steps that the finest archive retains.
    pub open spec fn retention(self) -> int {
        self.archives[0].steps_per_slot * self.archives[0].slots
    }
}

/// The lesser of two numbers.
pub open spec fn least(a: int, b: int) -> int {
    if a < b {
        a
    } else {
        b
    }
}

/// What a signal holds.
#[verifier::ext_equal]
pub struct Channel<F> {
    pub plan: SignalPlan<F>,
    /// The step that the last observation was in.
    pub step: Option<u64>,
    /// Whether that step was handed to the ladder.
    pub closed: bool,
    /// What was observed in that step, unless it was handed on.
    pub acc: Option<Summary<F>>,
    pub tiers: Seq<Tier<F>>,
}

impl<F: Arith> Channel<F> {
    /// A signal nothing was observed of.
    pub open spec fn empty(plan: SignalPlan<F>) -> Self {
        Channel {
            plan,
            step: None,
            closed: false,
            acc: None,
            tiers: Seq::new(
                plan.archives.len(),
                |i: int| Tier::empty(plan.archives[i], plan.units(i) as nat),
            ),
        }
    }

    /// The ladder is the declared one and in order, and nothing in it can come to
    /// hold more observations than can be counted.
    pub open spec fn wf(self) -> bool {
        &&& self.plan.valid()
        &&& self.tiers.len() == self.plan.archives.len()
        &&& forall|i: int|
            0 <= i < self.tiers.len() ==> {
                &&& (#[trigger] self.tiers[i]).spec == self.plan.archives[i]
                &&& self.tiers[i].units == self.plan.units(i)
            }
        &&& all_wf(self.tiers, self.plan.shape())
        &&& fits(self.acc, self.plan.shape())
        &&& laden(self.tiers, count_of(self.acc))
        &&& self.acc is Some ==> self.step is Some && !self.closed
        &&& self.closed ==> self.step is Some
    }

    /// The step in progress handed to the ladder, unless that was done.
    pub open spec fn flushed(self) -> Self {
        if self.step is Some && !self.closed {
            Channel { closed: true, acc: None, tiers: stepped(self.tiers, self.acc), ..self }
        } else {
            self
        }
    }

    /// The steps without an observation between the last one and `step`, as many
    /// of them as the finest archive retains.
    pub open spec fn gap(self, step: u64) -> nat {
        match self.step {
            Some(cur) => if step > cur {
                least(step - cur - 1, self.plan.retention()) as nat
            } else {
                0
            },
            None => 0,
        }
    }

    /// Whether an observation in `step` comes too late.
    pub open spec fn stale(self, step: u64) -> bool {
        self.step matches Some(cur) && step < cur
    }

    /// The step that is in progress is `step`, a later one than before having
    /// closed what was in progress.
    pub open spec fn at_step(self, step: u64) -> Self {
        match self.step {
            None => Channel { step: Some(step), ..self },
            Some(cur) => if step > cur {
                let done = self.flushed();
                Channel {
                    step: Some(step),
                    closed: false,
                    acc: None,
                    tiers: idled(done.tiers, self.gap(step)),
                    ..done
                }
            } else {
                self
            },
        }
    }

    /// One more observation in the step in progress.
    pub open spec fn recorded(self, obs: Sample<F>) -> Self {
        let slot = match self.acc {
            Some(s) => s,
            None => self.plan.blank(),
        };
        Channel { closed: false, acc: Some(slot.with(obs)), ..self }
    }

    /// An observation in `step`: ignored where it comes too late, and otherwise
    /// recorded where the signal takes it.
    pub open spec fn observed(self, step: u64, obs: Sample<F>) -> Self {
        if self.stale(step) {
            self
        } else if self.plan.takes(obs) {
            self.at_step(step).recorded(obs)
        } else {
            self.at_step(step)
        }
    }

    /// Whether an observation in `step` is refused.
    pub open spec fn refuses(self, step: u64, obs: Sample<F>) -> bool {
        !self.stale(step) && !self.plan.takes(obs)
    }

    /// Whether the step in progress can be handed on without a slot that cannot
    /// be counted.
    pub open spec fn flushable(self) -> bool {
        self.step is Some && !self.closed ==> roomy(self.tiers, 1)
    }

    /// Whether one more observation, and the slots written up to `step`, can be
    /// counted.
    pub open spec fn has_room(self, step: u64) -> bool {
        &&& roomy(self.tiers, self.gap(step) + 1)
        &&& laden(self.tiers, count_of(self.acc) + 1)
    }
}

/// An observation that a slot is for adds one to what it counts, and changes
/// nothing of its shape.
pub proof fn lemma_summary_with<F: Arith>(plan: SignalPlan<F>, s: Summary<F>, obs: Sample<F>)
    requires
        s.wf(),
        s.shape() == plan.shape(),
        s.count() < u64::MAX,
        plan.takes(obs),
        plan.absorbs(obs),
    ensures
        s.with(obs).wf(),
        s.with(obs).shape() == plan.shape(),
        s.with(obs).count() == s.count() + 1,
{
    match (s, obs) {
        (Summary::Categorical(c), Sample::Class(k)) => {
            lemma_total_of_class(c, k as int);
            lemma_total_of_counted(c, k as int);
        },
        (Summary::Clusters(b), Sample::Vector(x)) => {
            let one = Cloud::<F>::none(b.dim).with(x);
            let items = b.items.push(one);
            assert(items.drop_last() =~= b.items);
            assert forall|t: int| 0 <= t < items.len() implies (#[trigger] items[t]).n > 0
                && items[t].dim() == b.dim by {
                if t < b.items.len() {
                    assert(items[t] == b.items[t]);
                }
            }
            lemma_compacted_keeps(items, b.k, b.dim);
        },
        _ => {},
    }
}

/// A fresh slot counts nothing, and is of the declared shape.
pub proof fn lemma_blank<F: Arith>(plan: SignalPlan<F>)
    requires
        plan.kind is Clusters ==> plan.k > 0,
    ensures
        plan.blank().wf(),
        plan.blank().shape() == plan.shape(),
        plan.blank().count() == 0,
{
    lemma_total_of_none(plan.classes);
}

/// Handing on the step in progress keeps a signal in order.
pub proof fn lemma_flushed<F: Arith>(c: Channel<F>, slack: nat)
    requires
        c.wf(),
        laden(c.tiers, count_of(c.acc) + slack),
    ensures
        c.flushed().wf(),
        laden(c.flushed().tiers, slack),
        same_specs(c.flushed().tiers, c.tiers),
        forall|i: int|
            0 <= i < c.tiers.len() ==> (#[trigger] c.flushed().tiers[i]).ring.written
                <= c.tiers[i].ring.written + 1,
{
    if c.step is Some && !c.closed {
        lemma_stepped(c.tiers, c.acc, c.plan.shape(), slack);
        lemma_stepped(c.tiers, c.acc, c.plan.shape(), 0);
        let after = c.flushed();
        assert forall|i: int| 0 <= i < after.tiers.len() implies {
            &&& (#[trigger] after.tiers[i]).spec == after.plan.archives[i]
            &&& after.tiers[i].units == after.plan.units(i)
        } by {
            assert(c.tiers[i].spec == c.plan.archives[i]);
        }
    }
}

/// A later step keeps a signal in order.
pub proof fn lemma_at_step<F: Arith>(c: Channel<F>, step: u64, slack: nat)
    requires
        c.wf(),
        laden(c.tiers, count_of(c.acc) + slack),
    ensures
        c.at_step(step).wf(),
        laden(c.at_step(step).tiers, count_of(c.at_step(step).acc) + slack),
{
    if let Some(cur) = c.step {
        if step > cur {
            lemma_flushed(c, slack);
            let done = c.flushed();
            lemma_idled(done.tiers, c.gap(step), c.plan.shape(), slack);
            lemma_idled(done.tiers, c.gap(step), c.plan.shape(), 0);
            let after = c.at_step(step);
            assert forall|i: int| 0 <= i < after.tiers.len() implies {
                &&& (#[trigger] after.tiers[i]).spec == after.plan.archives[i]
                &&& after.tiers[i].units == after.plan.units(i)
            } by {
                assert(done.tiers[i].spec == done.plan.archives[i]);
            }
        }
    }
}

/// Recording an observation keeps a signal in order.
pub proof fn lemma_recorded<F: Arith>(c: Channel<F>, obs: Sample<F>)
    requires
        c.wf(),
        c.step is Some,
        laden(c.tiers, count_of(c.acc) + 1),
        c.plan.takes(obs),
        c.plan.absorbs(obs),
    ensures
        c.recorded(obs).wf(),
{
    let slot = match c.acc {
        Some(s) => s,
        None => c.plan.blank(),
    };
    assert(slot.wf() && slot.shape() == c.plan.shape() && slot.count() == count_of(c.acc)) by {
        if c.acc is None {
            lemma_blank(c.plan);
        }
    }
    assert(slot.count() + 1 <= u64::MAX);
    lemma_summary_with(c.plan, slot, obs);
    let after = c.recorded(obs);
    assert(count_of(after.acc) == count_of(c.acc) + 1);
    assert(after.tiers == c.tiers);
    assert(fits(after.acc, after.plan.shape()));
}

/// A span over a whole part of it is at least one, and no more than the span.
proof fn lemma_units(span: u32, part: u32)
    requires
        0 < part <= span,
    ensures
        1 <= span as int / part as int <= span,
{
    assert(1 <= span as int / part as int <= span) by (nonlinear_arith)
        requires
            0 < part <= span,
    ;
}

/// Archives nothing was written to hold nothing.
proof fn lemma_empty_laden<F: Arith>(tiers: Seq<Tier<F>>)
    requires
        forall|i: int|
            0 <= i < tiers.len() ==> (#[trigger] tiers[i]).pending is None
                && tiers[i].ring.slots.len() == 0,
    ensures
        laden(tiers, 0),
    decreases tiers.len(),
{
    if tiers.len() > 0 {
        assert(tiers[0].pending is None);
        assert forall|i: int| 0 <= i < tiers.drop_first().len() implies (
        #[trigger] tiers.drop_first()[i]).pending is None
            && tiers.drop_first()[i].ring.slots.len() == 0 by {
            assert(tiers[i + 1].pending is None);
        }
        lemma_empty_laden(tiers.drop_first());
    }
}

/// One signal of a store.
pub struct SignalState<R> {
    step: Option<u64>,
    closed: bool,
    step_acc: Option<Slot<R>>,
    archives: Vec<ArchiveState<R>>,
}

impl<R: Real> SignalState<R> {
    /// What the signal holds, under its declaration.
    pub closed spec fn channel(&self, plan: SignalPlan<R>) -> Channel<R> {
        Channel {
            plan,
            step: self.step,
            closed: self.closed,
            acc: summary_of(self.step_acc),
            tiers: tiers_of(self.archives@),
        }
    }

    /// The archives are in order, and so is what the signal holds.
    pub closed spec fn wf(&self, plan: SignalPlan<R>) -> bool {
        archives_wf(self.archives@, plan.shape()) && self.channel(plan).wf()
    }

    /// A signal nothing was observed of.
    pub(crate) fn new(spec: &SignalSpec<R>) -> (r: Self)
        requires
            spec@.valid(),
        ensures
            r.wf(spec@),
            r.channel(spec@) == Channel::empty(spec@),
    {
        let ghost plan = spec@;
        let ghost goal = Channel::empty(plan).tiers;
        let n: usize = spec.archives.len();
        let mut archives: Vec<ArchiveState<R>> = Vec::new();
        let mut prev_span: u32 = 1;
        let mut i: usize = 0;
        while i < n
            invariant
                i <= n == spec.archives.len(),
                plan == spec@,
                plan.valid(),
                goal == Channel::empty(plan).tiers,
                prev_span == (if i == 0 {
                    1
                } else {
                    plan.archives[i - 1].steps_per_slot
                }),
                prev_span > 0,
                archives_wf(archives@, plan.shape()),
                tiers_of(archives@) == goal.take(i as int),
            decreases n - i,
        {
            let a: ArchiveSpec<R> = spec.archives[i];
            proof {
                assert(plan.archives[i as int] == a);
                assert(a.steps_per_slot > 0 && a.slots > 0);
                if i > 0 {
                    assert(plan.archives[i - 1].steps_per_slot
                        < plan.archives[i as int].steps_per_slot);
                }
                lemma_units(a.steps_per_slot, prev_span);
            }
            let units: u32 = a.steps_per_slot / prev_span;
            let ghost before = archives@;
            let state: ArchiveState<R> = ArchiveState::new(a, units, Ghost(plan.shape()));
            archives.push(state);
            prev_span = a.steps_per_slot;
            i = i + 1;
            proof {
                assert(units == plan.units(i - 1));
                assert(goal.take(i as int) =~= goal.take(i - 1).push(goal[i - 1]));
                assert(tiers_of(archives@) =~= tiers_of(before).push(state@));
            }
        }
        let r = SignalState { step: None, closed: false, step_acc: None, archives };
        proof {
            assert(goal.take(n as int) =~= goal);
            lemma_archives_wf(archives@, plan.shape());
            lemma_empty_laden(goal);
            let c = r.channel(plan);
            assert(c =~= Channel::empty(plan));
            assert forall|i: int| 0 <= i < c.tiers.len() implies {
                &&& (#[trigger] c.tiers[i]).spec == plan.archives[i]
                &&& c.tiers[i].units == plan.units(i)
            } by {
                assert(plan.archives[i].steps_per_slot > 0);
                if i > 0 {
                    assert(plan.archives[i - 1].steps_per_slot > 0);
                    lemma_units(
                        plan.archives[i].steps_per_slot,
                        plan.archives[i - 1].steps_per_slot,
                    );
                }
            }
        }
        r
    }

    /// The archives, finest first.
    pub(crate) fn archives(&self, Ghost(plan): Ghost<SignalPlan<R>>) -> (r: &Vec<ArchiveState<R>>)
        requires
            self.wf(plan),
        ensures
            tiers_of(r@) == self.channel(plan).tiers,
            archives_wf(r@, plan.shape()),
    {
        &self.archives
    }

    /// Records an observation in `step`. Returns whether it was taken.
    pub(crate) fn observe(&mut self, spec: &SignalSpec<R>, step: u64, obs: Observation<R>) -> (r:
        bool)
        requires
            old(self).wf(spec@),
            !old(self).channel(spec@).stale(step) ==> {
                &&& old(self).channel(spec@).has_room(step)
                &&& spec@.absorbs(obs@)
            },
        ensures
            final(self).wf(spec@),
            final(self).channel(spec@) == old(self).channel(spec@).observed(step, obs@),
            r == !old(self).channel(spec@).refuses(step, obs@),
    {
        let ghost plan = spec@;
        let ghost before = self.channel(plan);
        match self.step {
            None => {
                self.step = Some(step);
                proof {
                    lemma_at_step(before, step, 1);
                }
            },
            Some(cur) => {
                if step < cur {
                    return true;  // out of order: ignored
                }
                proof {
                    lemma_at_step(before, step, 1);
                }
                if step > cur {
                    self.advance(spec, step);
                }
            },
        }
        assert(self.channel(plan) == before.at_step(step));
        assert(self.wf(plan));
        self.record(spec, obs)
    }

    /// The steps to fill in before `step`.
    fn gap(&self, spec: &SignalSpec<R>, step: u64) -> (r: u64)
        requires
            self.wf(spec@),
        ensures
            r == self.channel(spec@).gap(step),
            r < u64::MAX,
    {
        let fine: ArchiveSpec<R> = spec.archives[0];
        assert(fine.steps_per_slot * fine.slots <= 0xffff_ffff * 0xffff_ffff) by (nonlinear_arith)
            requires
                fine.steps_per_slot <= 0xffff_ffff,
                fine.slots <= 0xffff_ffff,
        ;
        let max_fill: u64 = fine.steps_per_slot as u64 * fine.slots as u64;
        match self.step {
            Some(cur) => {
                if step <= cur {
                    0
                } else if step - cur - 1 < max_fill {
                    step - cur - 1
                } else {
                    max_fill
                }
            },
            None => 0,
        }
    }

    /// Whether an observation in `step` comes too late.
    pub(crate) fn is_stale(&self, step: u64, Ghost(plan): Ghost<SignalPlan<R>>) -> (r: bool)
        ensures
            r == self.channel(plan).stale(step),
    {
        match self.step {
            Some(cur) => step < cur,
            None => false,
        }
    }

    /// Whether one more observation, and the slots written up to `step`, can be
    /// counted.
    pub(crate) fn has_room(&self, spec: &SignalSpec<R>, step: u64) -> (r: bool)
        requires
            self.wf(spec@),
        ensures
            r == self.channel(spec@).has_room(step),
    {
        let ghost shape = spec@.shape();
        let seen: u64 = match &self.step_acc {
            Some(s) => s.count(),
            None => 0,
        };
        has_slots(&self.archives, self.gap(spec, step) + 1, Ghost(shape)) && has_load(
            &self.archives,
            seen,
            Ghost(shape),
        )
    }

    /// Whether the step in progress can be handed on without a slot that cannot
    /// be counted.
    pub(crate) fn is_flushable(&self, Ghost(plan): Ghost<SignalPlan<R>>) -> (r: bool)
        requires
            self.wf(plan),
        ensures
            r == self.channel(plan).flushable(),
    {
        !self.step.is_some() || self.closed || has_slots(&self.archives, 1, Ghost(plan.shape()))
    }

    /// Closes the step in progress and opens the later `step`.
    fn advance(&mut self, spec: &SignalSpec<R>, step: u64)
        requires
            old(self).wf(spec@),
            old(self).channel(spec@).step is Some,
            old(self).channel(spec@).step->0 < step,
            old(self).channel(spec@).has_room(step),
        ensures
            final(self).wf(spec@),
            final(self).channel(spec@) == old(self).channel(spec@).at_step(step),
    {
        let ghost plan = spec@;
        let ghost before = self.channel(plan);
        let gap: u64 = self.gap(spec, step);
        proof {
            assert forall|i: int| 0 <= i < before.tiers.len() implies (
            #[trigger] before.tiers[i]).ring.written + 1 <= u64::MAX by {
                assert(before.tiers[i].ring.written + (gap + 1) <= u64::MAX);
            }
            lemma_flushed(before, 1);
            lemma_flushed(before, 0);
            lemma_at_step(before, step, 1);
            let done = before.flushed();
            assert forall|i: int| 0 <= i < done.tiers.len() implies (
            #[trigger] done.tiers[i]).ring.written + gap <= u64::MAX by {
                assert(before.tiers[i].ring.written + (gap + 1) <= u64::MAX);
            }
        }
        self.close_step(Ghost(plan));
        push_gap(&mut self.archives, gap, Ghost(plan.shape()));
        self.step = Some(step);
        self.closed = false;
        assert(self.channel(plan) == before.at_step(step));
    }

    /// Records an observation in the step in progress, where the signal takes it.
    fn record(&mut self, spec: &SignalSpec<R>, obs: Observation<R>) -> (r: bool)
        requires
            old(self).wf(spec@),
            old(self).channel(spec@).step is Some,
            laden(
                old(self).channel(spec@).tiers,
                count_of(old(self).channel(spec@).acc) + 1,
            ),
            spec@.absorbs(obs@),
        ensures
            r == spec@.takes(obs@),
            final(self).wf(spec@),
            final(self).channel(spec@) == if r {
                old(self).channel(spec@).recorded(obs@)
            } else {
                old(self).channel(spec@)
            },
    {
        let ghost plan = spec@;
        let ghost before = self.channel(plan);
        let taken: bool = match (&obs, spec.kind) {
            (Observation::Scalar(_), SlotKind::Scalar) => true,
            (Observation::Class(k), SlotKind::Categorical) => *k < spec.classes,
            (Observation::Vector(x), SlotKind::Vector) => x.len() == spec.dim,
            (Observation::Vector(_), SlotKind::Clusters) => true,
            _ => false,
        };
        if !taken {
            return false;
        }
        let slot: Slot<R> = match self.step_acc.take() {
            Some(s) => s,
            None => spec.empty_slot(),
        };
        proof {
            lemma_recorded(before, obs@);
            if before.acc is None {
                lemma_blank(plan);
            }
            if let Summary::Categorical(c) = slot@ {
                if let Sample::Class(k) = obs@ {
                    lemma_total_of_class(c, k as int);
                }
            }
        }
        let ghost given = slot@;
        let mut slot: Slot<R> = slot;
        match (&mut slot, obs) {
            (Slot::Scalar(w), Observation::Scalar(x)) => w.push(x),
            (Slot::Categorical(c), Observation::Class(k)) => c.push(k),
            (Slot::Vector(v), Observation::Vector(x)) => v.push(x.as_slice()),
            (Slot::Clusters(m), Observation::Vector(x)) => m.push(x.as_slice()),
            _ => {},
        }
        assert(slot@ == given.with(obs@));
        self.step_acc = Some(slot);
        self.closed = false;
        assert(self.channel(plan) == before.recorded(obs@));
        true
    }

    /// Hands the step in progress to the ladder.
    pub(crate) fn close_step(&mut self, Ghost(plan): Ghost<SignalPlan<R>>)
        requires
            old(self).wf(plan),
            old(self).channel(plan).flushable(),
        ensures
            final(self).wf(plan),
            final(self).channel(plan) == old(self).channel(plan).flushed(),
    {
        proof {
            lemma_flushed(self.channel(plan), 0);
        }
        if self.step.is_some() && !self.closed {
            let slot: Option<Slot<R>> = self.step_acc.take();
            self.closed = true;
            push_step(&mut self.archives, slot, Ghost(plan.shape()));
        }
    }
}

/// A state in order holds what is in order.
pub proof fn lemma_state_wf<R: Real>(s: SignalState<R>, plan: SignalPlan<R>)
    requires
        s.wf(plan),
    ensures
        s.channel(plan).wf(),
        s.channel(plan).plan == plan,
{
}

} // verus!
