//! The store: a declaration, the archives it fixes, and the resolution gate.
//!
//! A [`Declaration`] fixes what a store remembers — which signals, at which
//! resolutions, for how long — and the footprint follows from it arithmetically
//! and never changes afterwards. A [`Store`] ingests observations at caller-supplied
//! timestamps, consolidates each completed slot from a finer archive into the
//! coarser one above it, and discards the finer slot when its declared retention
//! is exhausted.
//!
//! A [`Grant`] is the part that is not a time-series database. A reader holds a set
//! of resolutions, and a read is answered only from archives whose resolution it
//! holds. The distinction that matters is what happens to the rest: an archive
//! past its retention has been overwritten, so an ungranted fine resolution is
//! not filtered out of the answer — after retention it is not in the store at
//! all, by any path. Retention policy and read policy are one mechanism.
//!
//! Time is always supplied by the caller. Nothing here reads a clock.

use vstd::prelude::*;

use crate::arith::{Arith, Real};
use crate::categorical::Categorical;
use crate::channel::{lemma_state_wf, Channel, Observation, Sample, SignalState};
use crate::decl::{DeclError, Declaration, Plan, SignalPlan, SignalSpec};
use crate::grant::{lists, Grant, Refusal};
use crate::kind::SlotKind;
use crate::ladder::{archives_wf, lemma_laden_slots, tiers_of, ArchiveState};
use crate::reading::{
    center_of, panes, scalar_mean_of, DecisionQuote, Outlook, Reading, Window,
};
use crate::ring::{count_of, counts_of, folded, lemma_folded, Ring};
use crate::slot::{Shape, Slot};
use crate::vector::VecAccum;

verus! {

/// Whether `i` is the last of the signals of that name.
pub open spec fn is_last<F>(signals: Seq<SignalPlan<F>>, name: Seq<char>, i: int) -> bool {
    &&& 0 <= i < signals.len()
    &&& signals[i].name == name
    &&& forall|j: int| i < j < signals.len() ==> (#[trigger] signals[j]).name != name
}

/// What a store holds: its declaration, and a channel for every signal of it.
#[verifier::ext_equal]
pub struct Memory<F> {
    pub plan: Plan<F>,
    pub channels: Seq<Channel<F>>,
}

impl<F: Arith> Memory<F> {
    /// A store nothing was observed in.
    pub open spec fn empty(plan: Plan<F>) -> Self {
        Memory {
            plan,
            channels: Seq::new(plan.signals.len(), |i: int| Channel::empty(plan.signals[i])),
        }
    }

    pub open spec fn wf(self) -> bool {
        &&& self.plan.valid()
        &&& self.channels.len() == self.plan.signals.len()
        &&& forall|i: int|
            0 <= i < self.channels.len() ==> {
                &&& (#[trigger] self.channels[i]).plan == self.plan.signals[i]
                &&& self.channels[i].wf()
            }
    }

    /// The signal that goes by a name: the last one declared under it.
    pub open spec fn find(self, name: Seq<char>) -> Option<int> {
        if exists|i: int| is_last(self.plan.signals, name, i) {
            Some(choose|i: int| is_last(self.plan.signals, name, i))
        } else {
            None
        }
    }

    /// The step that a time falls into.
    pub open spec fn step_of(self, at_secs: u64) -> u64 {
        (at_secs as int / self.plan.step_secs as int) as u64
    }

    /// The store with one of its channels replaced.
    pub open spec fn with_channel(self, i: int, c: Channel<F>) -> Self {
        Memory { channels: self.channels.update(i, c), ..self }
    }

    /// An observation of a signal. The other signals are left as they are.
    pub open spec fn observed(self, name: Seq<char>, at_secs: u64, obs: Sample<F>) -> Self {
        match self.find(name) {
            Some(i) => self.with_channel(
                i,
                self.channels[i].observed(self.step_of(at_secs), obs),
            ),
            None => self,
        }
    }

    /// A signal's step in progress closed.
    pub open spec fn flushed(self, name: Seq<char>) -> Self {
        match self.find(name) {
            Some(i) => self.with_channel(i, self.channels[i].flushed()),
            None => self,
        }
    }

    /// Whether an observation can be counted, and a codebook it is for can take
    /// it. One that comes too late always can: it is ignored.
    pub open spec fn can_observe(self, name: Seq<char>, at_secs: u64, obs: Sample<F>) -> bool {
        self.find(name) matches Some(i) ==> {
            let c = self.channels[i];
            c.stale(self.step_of(at_secs)) || c.has_room(self.step_of(at_secs))
                && c.plan.absorbs(obs)
        }
    }

    /// A signal as a reader with a grant sees it.
    pub open spec fn outlook(self, i: int, grant: Set<u64>) -> Outlook<F> {
        Outlook { step_secs: self.plan.step_secs as nat, tiers: self.channels[i].tiers, grant }
    }

    /// Whether a signal's resolutions and spans can be given in seconds.
    pub open spec fn can_read(self, name: Seq<char>, grant: Set<u64>) -> bool {
        self.find(name) matches Some(i) ==> self.outlook(i, grant).in_range()
    }

    /// Whether a signal's resolutions, and the span at the one asked for, can be
    /// given in seconds.
    pub open spec fn can_read_at(
        self,
        name: Seq<char>,
        resolution_secs: u64,
        grant: Set<u64>,
    ) -> bool {
        &&& self.plan.named_resolvable(name)
        &&& self.find(name) matches Some(i) ==> {
            let o = self.outlook(i, grant);
            forall|j: int|
                0 <= j < o.tiers.len() ==> {
                    &&& #[trigger] o.resolution(j) <= u64::MAX
                    &&& o.resolution(j) == resolution_secs && o.permitted(j) ==> o.resolution(j)
                        * o.tiers[j].ring.slots.len() <= u64::MAX
                }
        }
    }

    /// Whether a refusal is the right answer to a read at one resolution: the
    /// signal is not there, or it has no such resolution, or the reader does not
    /// hold it.
    pub open spec fn refused_at(
        self,
        name: Seq<char>,
        resolution_secs: u64,
        grant: Set<u64>,
        refusal: Refusal,
    ) -> bool {
        match (refusal, self.find(name)) {
            (Refusal::UnknownSignal(s), None) => s@ == name,
            (Refusal::NotDeclared { requested, offered }, Some(i)) => {
                &&& requested == resolution_secs
                &&& offered@ == self.plan.resolutions_named(name)
                &&& !self.outlook(i, grant).offers(resolution_secs as nat)
            },
            (Refusal::NotGranted { requested, granted }, Some(i)) => {
                &&& requested == resolution_secs
                &&& lists(granted@, grant)
                &&& self.outlook(i, grant).offers(resolution_secs as nat)
                &&& !grant.contains(resolution_secs)
            },
            _ => false,
        }
    }

    /// Whether a read at one resolution is answered from the `j`th archive of the
    /// `i`th signal.
    pub open spec fn answered_at(
        self,
        name: Seq<char>,
        resolution_secs: u64,
        grant: Set<u64>,
        i: int,
        j: int,
    ) -> bool {
        &&& self.find(name) == Some(i)
        &&& 0 <= j < self.channels[i].tiers.len()
        &&& self.outlook(i, grant).resolution(j) == resolution_secs
        &&& grant.contains(resolution_secs)
    }

    /// Whether closing a signal's step in progress writes no slot that cannot be
    /// counted.
    pub open spec fn can_flush(self, name: Seq<char>) -> bool {
        self.find(name) matches Some(i) ==> self.channels[i].flushable()
    }
}

/// There is one last signal of a name.
pub proof fn lemma_last_unique<F: Arith>(m: Memory<F>, name: Seq<char>, i: int)
    requires
        is_last(m.plan.signals, name, i),
    ensures
        m.find(name) == Some(i),
{
    let c = choose|c: int| is_last(m.plan.signals, name, c);
    assert(is_last(m.plan.signals, name, c));
    if c < i {
        assert(m.plan.signals[i].name != name);
    } else if i < c {
        assert(m.plan.signals[c].name != name);
    }
}

/// A declared, fixed-footprint store with a resolution gate on reads.
pub struct Store<R> {
    decl: Declaration<R>,
    signals: Vec<SignalState<R>>,
}

impl<R: Real> View for Store<R> {
    type V = Memory<R>;

    closed spec fn view(&self) -> Memory<R> {
        Memory {
            plan: self.decl@,
            channels: Seq::new(
                self.signals@.len(),
                |i: int| self.signals@[i].channel(self.decl@.signals[i]),
            ),
        }
    }
}

impl<R: Real> Store<R> {
    /// The declaration is sound, and every signal of it in order.
    pub closed spec fn wf(&self) -> bool {
        &&& self@.wf()
        &&& forall|i: int|
            0 <= i < self.signals@.len() ==> (#[trigger] self.signals@[i]).wf(
                self.decl@.signals[i],
            )
    }

    pub fn new(decl: Declaration<R>) -> (r: Result<Self, DeclError>)
        ensures
            match r {
                Ok(s) => decl@.valid() && s.wf() && s@ == Memory::empty(decl@),
                Err(e) => decl@.fault() == Some(e@),
            },
            r is Ok <==> decl@.valid(),
    {
        match decl.validate() {
            Ok(_) => {},
            Err(e) => {
                return Err(e);
            },
        }
        let n: usize = decl.signals.len();
        let mut signals: Vec<SignalState<R>> = Vec::new();
        let mut i: usize = 0;
        while i < n
            invariant
                i <= n == decl.signals.len(),
                decl@.valid(),
                signals@.len() == i,
                forall|j: int|
                    0 <= j < i ==> {
                        &&& (#[trigger] signals@[j]).wf(decl@.signals[j])
                        &&& signals@[j].channel(decl@.signals[j]) == Channel::empty(
                            decl@.signals[j],
                        )
                    },
            decreases n - i,
        {
            assert(decl@.signals[i as int] == decl.signals@[i as int]@);
            assert(decl@.signals[i as int].valid());
            signals.push(SignalState::new(&decl.signals[i]));
            i = i + 1;
        }
        let s = Store { decl, signals };
        proof {
            assert(s@.channels =~= Memory::empty(s.decl@).channels);
            lemma_signals_wf(s);
        }
        Ok(s)
    }

    pub fn declaration(&self) -> (r: &Declaration<R>)
        ensures
            r@ == self@.plan,
    {
        &self.decl
    }

    /// Bytes, from the declaration. Constant for the life of the store.
    pub fn footprint(&self) -> (r: usize)
        requires
            self@.plan.measurable(),
        ensures
            r == self@.plan.footprint(),
    {
        self.decl.footprint()
    }

    /// The signal that goes by a name.
    fn find(&self, signal: &str) -> (r: Option<usize>)
        requires
            self.wf(),
        ensures
            match r {
                Some(i) => i < self.signals@.len() && self@.find(signal@) == Some(i as int),
                None => self@.find(signal@) is None,
            },
    {
        let name: String = signal.to_owned();
        let mut i: usize = self.decl.signals.len();
        while i > 0
            invariant
                i <= self.decl.signals.len(),
                self.wf(),
                name@ == signal@,
                forall|j: int|
                    i <= j < self@.plan.signals.len() ==> (#[trigger] self@.plan.signals[j]).name
                        != signal@,
            decreases i,
        {
            i = i - 1;
            assert(self@.plan.signals[i as int] == self.decl.signals@[i as int]@);
            if self.decl.signals[i].name == name {
                proof {
                    assert(is_last(self@.plan.signals, signal@, i as int));
                    lemma_last_unique(self@, signal@, i as int);
                }
                return Some(i);
            }
        }
        assert(forall|i: int| !is_last(self@.plan.signals, signal@, i));
        None
    }

    /// Records an observation at a caller-supplied time.
    ///
    /// Steps with no observation are carried as unknown rather than as zero or
    /// as an interpolation. A gap longer than the finest archive's whole
    /// retention is collapsed rather than replayed, since replaying it would
    /// only overwrite the same ring repeatedly.
    pub fn observe(&mut self, signal: &str, at_secs: u64, obs: Observation<R>) -> (r: Result<
        (),
        Refusal,
    >)
        requires
            old(self).wf(),
            old(self)@.can_observe(signal@, at_secs, obs@),
        ensures
            final(self).wf(),
            final(self)@ == old(self)@.observed(signal@, at_secs, obs@),
            match (r, old(self)@.find(signal@)) {
                (Ok(_), Some(i)) => !old(self)@.channels[i].refuses(
                    old(self)@.step_of(at_secs),
                    obs@,
                ),
                (Err(Refusal::WrongKind { signal: s }), Some(i)) => s@ == signal@
                    && old(self)@.channels[i].refuses(old(self)@.step_of(at_secs), obs@),
                (Err(Refusal::UnknownSignal(s)), None) => s@ == signal@,
                _ => false,
            },
    {
        let i: usize = match self.find(signal) {
            Some(i) => i,
            None => {
                return Err(Refusal::UnknownSignal(signal.to_owned()));
            },
        };
        let ghost before = *self;
        let step: u64 = at_secs / self.decl.step_secs;
        proof {
            assert(self.signals@[i as int].wf(self.decl@.signals[i as int]));
            assert(self@.channels[i as int].plan == self.decl@.signals[i as int]);
            assert(self.decl@.signals[i as int] == self.decl.signals@[i as int]@);
            assert(step == self@.step_of(at_secs));
        }
        let taken: bool = self.signals[i].observe(&self.decl.signals[i], step, obs);
        proof {
            assert(self@.channels =~= before@.observed(signal@, at_secs, obs@).channels);
            lemma_signals_wf(*self);
        }
        if taken {
            Ok(())
        } else {
            Err(Refusal::WrongKind { signal: signal.to_owned() })
        }
    }

    /// Closes the step in progress, so the ladder has everything observed so far.
    /// Windows cover closed slots: a slot that lacks steps is read once it has them.
    /// Idempotent.
    pub fn flush(&mut self, signal: &str) -> (r: Result<(), Refusal>)
        requires
            old(self).wf(),
            old(self)@.can_flush(signal@),
        ensures
            final(self).wf(),
            final(self)@ == old(self)@.flushed(signal@),
            match (r, old(self)@.find(signal@)) {
                (Ok(_), Some(_)) => true,
                (Err(Refusal::UnknownSignal(s)), None) => s@ == signal@,
                _ => false,
            },
    {
        let i: usize = match self.find(signal) {
            Some(i) => i,
            None => {
                return Err(Refusal::UnknownSignal(signal.to_owned()));
            },
        };
        let ghost before = *self;
        proof {
            assert(self.signals@[i as int].wf(self.decl@.signals[i as int]));
        }
        self.signals[i].close_step(Ghost(self.decl@.signals[i as int]));
        proof {
            assert(self@.channels =~= before@.flushed(signal@).channels);
            lemma_signals_wf(*self);
        }
        Ok(())
    }
}

impl<R: Real> Store<R> {
    /// Whether an observation can be recorded: it can be counted, and a codebook it is
    /// for can take it. One that comes too late always can: it is ignored.
    pub fn can_observe(&self, signal: &str, at_secs: u64, obs: &Observation<R>) -> (r: bool)
        requires
            self.wf(),
        ensures
            r == self@.can_observe(signal@, at_secs, obs@),
    {
        let i: usize = match self.find(signal) {
            Some(i) => i,
            None => {
                return true;
            },
        };
        let ghost plan = self.decl@.signals[i as int];
        let step: u64 = at_secs / self.decl.step_secs;
        proof {
            assert(self.signals@[i as int].wf(plan));
            assert(self@.channels[i as int].plan == plan);
            assert(plan == self.decl.signals@[i as int]@);
            assert(step == self@.step_of(at_secs));
        }
        let spec: &SignalSpec<R> = &self.decl.signals[i];
        let state: &SignalState<R> = &self.signals[i];
        state.is_stale(step, Ghost(plan)) || state.has_room(spec, step) && spec.absorbs(obs)
    }

    /// Whether the step in progress can be closed: the slots that this writes can be
    /// counted.
    pub fn can_flush(&self, signal: &str) -> (r: bool)
        requires
            self.wf(),
        ensures
            r == self@.can_flush(signal@),
    {
        match self.find(signal) {
            Some(i) => {
                let ghost plan = self.decl@.signals[i as int];
                assert(self.signals@[i as int].wf(plan));
                self.signals[i].is_flushable(Ghost(plan))
            },
            None => true,
        }
    }

    /// The span of the `j`th archive of the `i`th signal, in seconds, where it can be
    /// given.
    fn span(&self, i: usize, j: usize, Ghost(grant): Ghost<Set<u64>>) -> (r: Option<(u64, Option<
        u64,
    >)>)
        requires
            self.wf(),
            i < self.signals@.len(),
            j < self@.channels[i as int].tiers.len(),
        ensures
            match r {
                Some((resolution, span)) => {
                    let o = self@.outlook(i as int, grant);
                    &&& resolution == o.resolution(j as int)
                    &&& span is Some <==> o.resolution(j as int)
                        * o.tiers[j as int].ring.slots.len() <= u64::MAX
                },
                None => self@.outlook(i as int, grant).resolution(j as int) > u64::MAX,
            },
    {
        let ghost plan = self.decl@.signals[i as int];
        proof {
            assert(self.signals@[i as int].wf(plan));
            assert(self@.channels[i as int].plan == plan);
            assert(self@.channels[i as int].wf());
            assert(plan == self.decl.signals@[i as int]@);
            assert(self@.channels[i as int].tiers[j as int].spec == plan.archives[j as int]);
        }
        let archives: &Vec<ArchiveState<R>> = self.signals[i].archives(Ghost(plan));
        proof {
            assert(archives@[j as int].wf(plan.shape()));
            assert(self@.channels[i as int].tiers[j as int] == archives@[j as int]@);
        }
        let steps: u32 = self.decl.signals[i].archives[j].steps_per_slot;
        match (steps as u64).checked_mul(self.decl.step_secs) {
            Some(resolution) => {
                let retained: usize = archives[j].ring(Ghost(plan.shape())).retained_len();
                Some((resolution, resolution.checked_mul(retained as u64)))
            },
            None => None,
        }
    }

    /// Whether a signal can be read: its resolutions, and the spans that the permitted
    /// archives cover, can be given in seconds.
    pub fn can_read(&self, signal: &str, grant: &Grant) -> (r: bool)
        requires
            self.wf(),
        ensures
            r == self@.can_read(signal@, grant@),
    {
        let i: usize = match self.find(signal) {
            Some(i) => i,
            None => {
                return true;
            },
        };
        let ghost o = self@.outlook(i as int, grant@);
        proof {
            assert(self@.channels[i as int].wf());
            assert(self@.channels[i as int].plan == self.decl.signals@[i as int]@);
        }
        let n: usize = self.decl.signals[i].archives.len();
        let mut j: usize = 0;
        while j < n
            invariant
                self.wf(),
                i < self.signals@.len(),
                self@.find(signal@) == Some(i as int),
                o == self@.outlook(i as int, grant@),
                j <= n == o.tiers.len() == self@.channels[i as int].tiers.len(),
                forall|t: int|
                    0 <= t < j ==> {
                        &&& #[trigger] o.resolution(t) <= u64::MAX
                        &&& o.permitted(t) ==> o.resolution(t) * o.tiers[t].ring.slots.len()
                            <= u64::MAX
                    },
            decreases n - j,
        {
            match self.span(i, j, Ghost(grant@)) {
                Some((resolution, span)) => {
                    if grant.permits(resolution) && span.is_none() {
                        assert(!(o.resolution(j as int) * o.tiers[j as int].ring.slots.len()
                            <= u64::MAX));
                        return false;
                    }
                },
                None => {
                    assert(o.resolution(j as int) > u64::MAX);
                    return false;
                },
            }
            j = j + 1;
        }
        true
    }

    /// Whether a signal can be read at one resolution: its resolutions, and the span
    /// at the one asked for, can be given in seconds.
    pub fn can_read_at(&self, signal: &str, resolution_secs: u64, grant: &Grant) -> (r: bool)
        requires
            self.wf(),
        ensures
            r == self@.can_read_at(signal@, resolution_secs, grant@),
    {
        if !self.decl.resolves_of(signal) {
            return false;
        }
        let i: usize = match self.find(signal) {
            Some(i) => i,
            None => {
                return true;
            },
        };
        let ghost o = self@.outlook(i as int, grant@);
        proof {
            assert(self@.channels[i as int].wf());
            assert(self@.channels[i as int].plan == self.decl.signals@[i as int]@);
        }
        let n: usize = self.decl.signals[i].archives.len();
        let mut j: usize = 0;
        while j < n
            invariant
                self.wf(),
                i < self.signals@.len(),
                self@.plan.named_resolvable(signal@),
                self@.find(signal@) == Some(i as int),
                o == self@.outlook(i as int, grant@),
                j <= n == o.tiers.len() == self@.channels[i as int].tiers.len(),
                forall|t: int|
                    0 <= t < j ==> {
                        &&& #[trigger] o.resolution(t) <= u64::MAX
                        &&& o.resolution(t) == resolution_secs && o.permitted(t) ==> o.resolution(
                            t,
                        ) * o.tiers[t].ring.slots.len() <= u64::MAX
                    },
            decreases n - j,
        {
            match self.span(i, j, Ghost(grant@)) {
                Some((resolution, span)) => {
                    if resolution == resolution_secs && grant.permits(resolution)
                        && span.is_none() {
                        assert(!(o.resolution(j as int) * o.tiers[j as int].ring.slots.len()
                            <= u64::MAX));
                        return false;
                    }
                },
                None => {
                    assert(o.resolution(j as int) > u64::MAX);
                    return false;
                },
            }
            j = j + 1;
        }
        true
    }
}

/// A vector that may be absent, as a sequence.
pub open spec fn seq_of<R>(v: Option<Vec<R>>) -> Option<Seq<R>> {
    match v {
        Some(v) => Some(v@),
        None => None,
    }
}

/// The dimension of the vectors behind slots of a shape.
pub open spec fn dim_of(shape: Shape) -> nat {
    match shape {
        Shape::Vector { dim } => dim,
        Shape::Clusters { k: _, dim } => dim,
        _ => 0,
    }
}

fn drift_from<R: Real>(v: &VecAccum<R>, baseline: &Option<Vec<R>>) -> (r: Option<R>)
    requires
        baseline matches Some(b) ==> b@.len() == v@.dim(),
    ensures
        r == match seq_of(*baseline) {
            Some(b) => v@.drift_of(b),
            None => None,
        },
{
    match baseline {
        Some(b) => v.drift_from(b.as_slice()),
        None => None,
    }
}

fn scalar_mean<R: Real>(slot: Option<&Slot<R>>) -> (r: Option<R>)
    ensures
        r == scalar_mean_of(
            match slot {
                Some(s) => Some(s@),
                None => None,
            },
        ),
{
    match slot {
        Some(Slot::Scalar(w)) => w.mean(),
        _ => None,
    }
}

/// The centroid behind an archive of a vector kind.
fn center<R: Real>(a: &ArchiveState<R>, Ghost(shape): Ghost<Shape>) -> (r: Option<Vec<R>>)
    requires
        a.wf(shape),
        counts_of(a@.ring.slots) <= u64::MAX,
    ensures
        seq_of(r) == center_of(folded(a@.ring.slots)),
        r matches Some(c) ==> c@.len() == dim_of(shape),
{
    let ring: &Ring<R> = a.ring(Ghost(shape));
    proof {
        lemma_folded(a@.ring.slots, shape);
    }
    match ring.consolidate() {
        Some(Slot::Vector(v)) => v.centroid(),
        Some(Slot::Clusters(m)) => m.total().centroid(),
        _ => None,
    }
}

/// What an archive's retained slots read as.
fn window<R: Real>(
    a: &ArchiveState<R>,
    resolution_secs: u64,
    baseline: &Option<Vec<R>>,
    Ghost(shape): Ghost<Shape>,
) -> (r: Window<R>)
    requires
        a.wf(shape),
        counts_of(a@.ring.slots) <= u64::MAX,
        resolution_secs * a@.ring.slots.len() <= u64::MAX,
        baseline matches Some(b) ==> b@.len() == dim_of(shape),
    ensures
        r@ == a@.pane(resolution_secs as nat, seq_of(*baseline)),
{
    let ring: &Ring<R> = a.ring(Ghost(shape));
    proof {
        lemma_folded(a@.ring.slots, shape);
    }
    let retained: usize = ring.retained_len();
    let whole: Option<Slot<R>> = ring.consolidate();
    let observations: u64 = match &whole {
        Some(s) => s.count(),
        None => 0,
    };
    let mut w: Window<R> = Window {
        resolution_secs,
        span_secs: resolution_secs * retained as u64,
        mean: None,
        min: None,
        max: None,
        variance: None,
        counts: None,
        dominant: None,
        entropy: None,
        spread: None,
        drift: None,
        observations,
        unknown: ring.is_unknown(a.spec().xff),
    };
    match &whole {
        Some(Slot::Scalar(m)) => {
            w.mean = m.mean();
            w.min = m.min();
            w.max = m.max();
            w.variance = m.variance();
        },
        Some(Slot::Categorical(c)) => {
            w.counts = Some(listed(c));
            w.dominant = c.dominant();
            w.entropy = c.entropy();
        },
        Some(Slot::Vector(v)) => {
            w.spread = v.variance();
            w.drift = drift_from(v, baseline);
        },
        Some(Slot::Clusters(m)) => {
            let v: VecAccum<R> = m.total();
            w.spread = v.variance();
            w.drift = drift_from(&v, baseline);
        },
        None => {},
    }
    w
}

/// The counts of every class.
fn listed(c: &Categorical) -> (r: Vec<u64>)
    ensures
        r@ == c@,
{
    let counts: &[u64] = c.counts();
    let n: usize = counts.len();
    let mut out: Vec<u64> = Vec::new();
    let mut i: usize = 0;
    while i < n
        invariant
            i <= n == counts@.len(),
            out@ == counts@.take(i as int),
        decreases n - i,
    {
        out.push(counts[i]);
        i = i + 1;
        assert(out@ =~= counts@.take(i as int));
    }
    assert(counts@.take(n as int) =~= counts@);
    out
}

impl<R: Real> Store<R> {
    /// The resolution of the `j`th archive of the `i`th signal.
    fn resolution(&self, i: usize, j: usize, Ghost(grant): Ghost<Set<u64>>) -> (r: u64)
        requires
            self.wf(),
            i < self.signals@.len(),
            j < self@.channels[i as int].tiers.len(),
            self@.outlook(i as int, grant).resolution(j as int) <= u64::MAX,
        ensures
            r == self@.outlook(i as int, grant).resolution(j as int),
    {
        proof {
            assert(self@.channels[i as int].plan == self.decl@.signals[i as int]);
            assert(self.decl@.signals[i as int] == self.decl.signals@[i as int]@);
            assert(self@.channels[i as int].tiers[j as int].spec
                == self.decl@.signals[i as int].archives[j as int]);
        }
        self.decl.signals[i].archives[j].steps_per_slot as u64 * self.decl.step_secs
    }

    /// The coarsest permitted archive of the `i`th signal, and its centroid.
    fn baseline(&self, i: usize, grant: &Grant) -> (r: (usize, Option<Vec<R>>))
        requires
            self.wf(),
            i < self.signals@.len(),
            forall|j: int|
                0 <= j < self@.channels[i as int].tiers.len() ==> #[trigger] self@.outlook(
                    i as int,
                    grant@,
                ).resolution(j) <= u64::MAX,
        ensures
            forall|j: int|
                #![trigger self@.outlook(i as int, grant@).baseline(j)]
                0 <= j < self@.channels[i as int].tiers.len() ==> self@.outlook(
                    i as int,
                    grant@,
                ).baseline(j) == if j < r.0 {
                    seq_of(r.1)
                } else {
                    None
                },
            r.1 matches Some(c) ==> c@.len() == dim_of(self@.channels[i as int].plan.shape()),
    {
        let ghost plan = self.decl@.signals[i as int];
        let ghost shape = plan.shape();
        let ghost o = self@.outlook(i as int, grant@);
        proof {
            assert(self.signals@[i as int].wf(plan));
            assert(self@.channels[i as int].plan == plan);
        }
        let archives: &Vec<ArchiveState<R>> = self.signals[i].archives(Ghost(plan));
        let mut j: usize = archives.len();
        while j > 0
            invariant
                self.wf(),
                i < self.signals@.len(),
                plan == self@.channels[i as int].plan,
                shape == plan.shape(),
                o == self@.outlook(i as int, grant@),
                o.tiers == tiers_of(archives@),
                archives_wf(archives@, shape),
                j <= archives.len(),
                forall|t: int| 0 <= t < o.tiers.len() ==> #[trigger] o.resolution(t) <= u64::MAX,
                forall|t: int| j <= t < o.tiers.len() ==> !#[trigger] o.permitted(t),
            decreases j,
        {
            j = j - 1;
            assert(o.resolution(j as int) <= u64::MAX);
            if grant.permits(self.resolution(i, j, Ghost(grant@))) {
                proof {
                    assert(o.permitted(j as int));
                    assert(o.is_baseline(j as int));
                    assert(self@.channels[i as int].wf());
                    lemma_laden_slots(
                        o.tiers,
                        count_of(self@.channels[i as int].acc),
                        j as int,
                    );
                    assert(archives@[j as int].wf(shape));
                    assert(o.tiers[j as int] == archives@[j as int]@);
                    assert forall|t: int| 0 <= t < o.tiers.len() implies #[trigger] o.baseline(t)
                        == if t < j {
                        center_of(folded(o.tiers[j as int].ring.slots))
                    } else {
                        None
                    } by {
                        lemma_baseline(o, j as int, t);
                    }
                }
                let c: Option<Vec<R>> = center(&archives[j], Ghost(shape));
                return (j, c);
            }
        }
        (0, None)
    }

    /// Reads every permitted resolution, and names the withheld ones.
    pub fn read(&self, signal: &str, grant: &Grant) -> (r: Result<Reading<R>, Refusal>)
        requires
            self.wf(),
            self@.can_read(signal@, grant@),
        ensures
            match (r, self@.find(signal@)) {
                (Ok(reading), Some(i)) => reading@ == self@.outlook(i, grant@).report(signal@),
                (Err(Refusal::UnknownSignal(s)), None) => s@ == signal@,
                _ => false,
            },
    {
        let i: usize = match self.find(signal) {
            Some(i) => i,
            None => {
                return Err(Refusal::UnknownSignal(signal.to_owned()));
            },
        };
        let ghost plan = self.decl@.signals[i as int];
        let ghost shape = plan.shape();
        let ghost o = self@.outlook(i as int, grant@);
        proof {
            assert(self.signals@[i as int].wf(plan));
            assert(self@.channels[i as int].plan == plan);
            assert(self@.channels[i as int].wf());
        }
        let (base, center): (usize, Option<Vec<R>>) = self.baseline(i, grant);
        let none: Option<Vec<R>> = None;
        let archives: &Vec<ArchiveState<R>> = self.signals[i].archives(Ghost(plan));
        let n: usize = archives.len();
        let mut windows: Vec<Window<R>> = Vec::new();
        let mut withheld: Vec<u64> = Vec::new();
        let mut j: usize = 0;
        while j < n
            invariant
                self.wf(),
                i < self.signals@.len(),
                plan == self@.channels[i as int].plan,
                shape == plan.shape(),
                self@.channels[i as int].wf(),
                o == self@.outlook(i as int, grant@),
                o.in_range(),
                o.tiers == tiers_of(archives@),
                archives_wf(archives@, shape),
                j <= n == archives.len(),
                none is None,
                center matches Some(c) ==> c@.len() == dim_of(shape),
                forall|t: int|
                    0 <= t < o.tiers.len() ==> #[trigger] o.baseline(t) == if t < base {
                        seq_of(center)
                    } else {
                        None
                    },
                panes(windows@) == o.windows(j as nat),
                withheld@ == o.withheld(j as nat),
            decreases n - j,
        {
            proof {
                assert(o.resolution(j as int) <= u64::MAX);
                lemma_laden_slots(o.tiers, count_of(self@.channels[i as int].acc), j as int);
                assert(archives@[j as int].wf(shape));
                assert(o.tiers[j as int] == archives@[j as int]@);
            }
            let res: u64 = self.resolution(i, j, Ghost(grant@));
            if grant.permits(res) {
                let ghost before = windows@;
                let w: Window<R> = window(
                    &archives[j],
                    res,
                    if j < base {
                        &center
                    } else {
                        &none
                    },
                    Ghost(shape),
                );
                windows.push(w);
                assert(panes(windows@) =~= panes(before).push(w@));
            } else {
                withheld.push(res);
            }
            j = j + 1;
        }
        let now: Option<R> = if grant.permits(self.resolution(i, 0, Ghost(grant@))) {
            assert(archives@[0].wf(shape));
            scalar_mean(archives[0].ring(Ghost(shape)).newest())
        } else {
            None
        };
        Ok(Reading { signal: signal.to_owned(), now, windows, withheld })
    }

    /// The signal and the archive that answer a read at one resolution.
    fn locate(&self, signal: &str, resolution_secs: u64, grant: &Grant) -> (r: Result<
        (usize, usize),
        Refusal,
    >)
        requires
            self.wf(),
            self@.can_read_at(signal@, resolution_secs, grant@),
        ensures
            match r {
                Ok((i, j)) => i < self.signals@.len() && self@.answered_at(
                    signal@,
                    resolution_secs,
                    grant@,
                    i as int,
                    j as int,
                ),
                Err(e) => self@.refused_at(signal@, resolution_secs, grant@, e),
            },
    {
        let i: usize = match self.find(signal) {
            Some(i) => i,
            None => {
                return Err(Refusal::UnknownSignal(signal.to_owned()));
            },
        };
        let ghost o = self@.outlook(i as int, grant@);
        proof {
            assert(self@.channels[i as int].plan == self.decl@.signals[i as int]);
            assert(self.decl@.signals[i as int] == self.decl.signals@[i as int]@);
            assert(self@.channels[i as int].wf());
        }
        let n: usize = self.decl.signals[i].archives.len();
        let mut j: usize = 0;
        while j < n
            invariant
                self.wf(),
                i < self.signals@.len(),
                o == self@.outlook(i as int, grant@),
                self@.find(signal@) == Some(i as int),
                n == o.tiers.len() == self@.channels[i as int].tiers.len(),
                j <= n,
                forall|t: int| 0 <= t < o.tiers.len() ==> #[trigger] o.resolution(t) <= u64::MAX,
                forall|t: int| 0 <= t < j ==> #[trigger] o.resolution(t) != resolution_secs,
            decreases n - j,
        {
            assert(o.resolution(j as int) <= u64::MAX);
            if self.resolution(i, j, Ghost(grant@)) == resolution_secs {
                assert(o.offers(resolution_secs as nat));
                if !grant.permits(resolution_secs) {
                    return Err(
                        Refusal::NotGranted {
                            requested: resolution_secs,
                            granted: grant.granted(),
                        },
                    );
                }
                return Ok((i, j));
            }
            j = j + 1;
        }
        Err(
            Refusal::NotDeclared {
                requested: resolution_secs,
                offered: self.decl.resolutions_of(signal),
            },
        )
    }

    /// Reads one resolution, refusing where it is not granted — and separately
    /// where it was never declared, since those are different failures and a
    /// reader should be able to tell them apart.
    pub fn read_at(&self, signal: &str, resolution_secs: u64, grant: &Grant) -> (r: Result<
        Window<R>,
        Refusal,
    >)
        requires
            self.wf(),
            self@.can_read_at(signal@, resolution_secs, grant@),
        ensures
            match r {
                Ok(w) => exists|i: int, j: int| #[trigger]
                    self@.answered_at(signal@, resolution_secs, grant@, i, j) && w@
                        == self@.outlook(i, grant@).pane(j),
                Err(e) => self@.refused_at(signal@, resolution_secs, grant@, e),
            },
    {
        let (i, j): (usize, usize) = match self.locate(signal, resolution_secs, grant) {
            Ok(found) => found,
            Err(e) => {
                return Err(e);
            },
        };
        let ghost plan = self.decl@.signals[i as int];
        let ghost o = self@.outlook(i as int, grant@);
        proof {
            assert(self.signals@[i as int].wf(plan));
            assert(self@.channels[i as int].plan == plan);
            assert(self@.channels[i as int].wf());
            assert(o.resolution(j as int) <= u64::MAX);
            lemma_laden_slots(o.tiers, count_of(self@.channels[i as int].acc), j as int);
        }
        let (base, center): (usize, Option<Vec<R>>) = self.baseline(i, grant);
        let none: Option<Vec<R>> = None;
        let archives: &Vec<ArchiveState<R>> = self.signals[i].archives(Ghost(plan));
        proof {
            assert(archives@[j as int].wf(plan.shape()));
            assert(o.tiers[j as int] == archives@[j as int]@);
            assert(o.baseline(j as int) == if j < base {
                seq_of(center)
            } else {
                None
            });
        }
        let w: Window<R> = window(
            &archives[j],
            resolution_secs,
            if j < base {
                &center
            } else {
                &none
            },
            Ghost(plan.shape()),
        );
        assert(w@ == o.pane(j as int));
        Ok(w)
    }

    /// The centroid behind one resolution of a vector signal, under the same
    /// grant as a read at it. A window carries movement only; this is position.
    pub fn centroid(&self, signal: &str, resolution_secs: u64, grant: &Grant) -> (r: Result<
        Option<Vec<R>>,
        Refusal,
    >)
        requires
            self.wf(),
            self@.can_read_at(signal@, resolution_secs, grant@),
        ensures
            match r {
                Ok(c) => exists|i: int, j: int| #[trigger]
                    self@.answered_at(signal@, resolution_secs, grant@, i, j)
                        && self@.plan.signals[i].embeds() && seq_of(c) == center_of(
                        folded(self@.channels[i].tiers[j].ring.slots),
                    ),
                Err(Refusal::WrongKind { signal: s }) => s@ == signal@ && exists|i: int, j: int|
                    #[trigger]
                    self@.answered_at(signal@, resolution_secs, grant@, i, j)
                        && !self@.plan.signals[i].embeds(),
                Err(e) => self@.refused_at(signal@, resolution_secs, grant@, e),
            },
    {
        let (i, j): (usize, usize) = match self.locate(signal, resolution_secs, grant) {
            Ok(found) => found,
            Err(e) => {
                return Err(e);
            },
        };
        let ghost plan = self.decl@.signals[i as int];
        let ghost o = self@.outlook(i as int, grant@);
        proof {
            assert(self.signals@[i as int].wf(plan));
            assert(self@.channels[i as int].plan == plan);
            assert(self@.channels[i as int].wf());
            assert(plan == self.decl.signals@[i as int]@);
            lemma_laden_slots(o.tiers, count_of(self@.channels[i as int].acc), j as int);
        }
        if !matches!(self.decl.signals[i].kind, SlotKind::Vector | SlotKind::Clusters) {
            return Err(Refusal::WrongKind { signal: signal.to_owned() });
        }
        let archives: &Vec<ArchiveState<R>> = self.signals[i].archives(Ghost(plan));
        proof {
            assert(archives@[j as int].wf(plan.shape()));
            assert(o.tiers[j as int] == archives@[j as int]@);
        }
        Ok(center(&archives[j], Ghost(plan.shape())))
    }

    /// Reads and freezes, for a decision record to carry.
    pub fn quote(&self, signal: &str, grant: &Grant, taken_at: u64) -> (r: Result<
        DecisionQuote<R>,
        Refusal,
    >)
        requires
            self.wf(),
            self@.can_read(signal@, grant@),
        ensures
            match (r, self@.find(signal@)) {
                (Ok(q), Some(i)) => q.taken_at == taken_at && q.reading@ == self@.outlook(
                    i,
                    grant@,
                ).report(signal@),
                (Err(Refusal::UnknownSignal(s)), None) => s@ == signal@,
                _ => false,
            },
    {
        match self.read(signal, grant) {
            Ok(reading) => Ok(DecisionQuote { taken_at, reading }),
            Err(e) => Err(e),
        }
    }
}

/// A store in order holds what is in order: what is proved of such a memory holds of it.
pub proof fn lemma_store_wf<R: Real>(s: Store<R>)
    requires
        s.wf(),
    ensures
        s@.wf(),
{
}

/// The coarsest permitted archive is the baseline of all that are finer.
proof fn lemma_baseline<F: Arith>(o: Outlook<F>, b: int, t: int)
    requires
        o.is_baseline(b),
    ensures
        o.baseline(t) == if t < b {
            center_of(folded(o.tiers[b].ring.slots))
        } else {
            None
        },
{
    assert forall|c: int| o.is_baseline(c) implies c == b by {
        if c < b {
            assert(!o.permitted(b));
        } else if b < c {
            assert(!o.permitted(c));
        }
    }
}

/// Signals in order make a store in order.
proof fn lemma_signals_wf<R: Real>(s: Store<R>)
    requires
        s.decl@.valid(),
        s.signals@.len() == s.decl@.signals.len(),
        forall|i: int|
            0 <= i < s.signals@.len() ==> (#[trigger] s.signals@[i]).wf(s.decl@.signals[i]),
    ensures
        s.wf(),
{
    assert forall|i: int| 0 <= i < s@.channels.len() implies {
        &&& (#[trigger] s@.channels[i]).plan == s@.plan.signals[i]
        &&& s@.channels[i].wf()
    } by {
        lemma_state_wf(s.signals@[i], s.decl@.signals[i]);
    }
}

} // verus!
