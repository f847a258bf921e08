//! The retention ladder of one signal: archives that consolidate into one another.

use vstd::prelude::*;

use crate::arith::{Arith, Real};
use crate::decl::ArchiveSpec;
use crate::ring::{
    all_fit, count_of, counts_of, exceeds, fits, lemma_counts_of_with, Ring, Track,
};
use crate::slot::{copy_of, lemma_joined, summary_of, Shape, Slot, Summary};

verus! {

/// What one archive holds: its closed slots, and the slot it is filling.
#[verifier::ext_equal]
pub struct Tier<F> {
    pub spec: ArchiveSpec<F>,
    /// How many constituents make a slot.
    pub units: nat,
    pub ring: Track<F>,
    /// The constituents of the unfinished slot that carry data, merged.
    pub pending: Option<Summary<F>>,
    /// How many constituents the unfinished slot has had.
    pub seen: nat,
    /// How many of those carried no data.
    pub unknown: nat,
}

impl<F: Arith> Tier<F> {
    /// An archive nothing was written to.
    pub open spec fn empty(spec: ArchiveSpec<F>, units: nat) -> Self {
        Tier {
            spec,
            units,
            ring: Track::empty(spec.slots as nat),
            pending: None,
            seen: 0,
            unknown: 0,
        }
    }

    /// The unfinished slot is unfinished, it has a value exactly where one of its
    /// constituents had, and all slots are of one shape.
    pub open spec fn wf(self, shape: Shape) -> bool {
        &&& self.seen < self.units <= u32::MAX
        &&& self.unknown <= self.seen
        &&& self.pending is None <==> self.unknown == self.seen
        &&& fits(self.pending, shape)
        &&& self.ring.wf()
        &&& self.ring.capacity == self.spec.slots
        &&& all_fit(self.ring.slots, shape)
    }

    /// One more constituent of the unfinished slot.
    pub open spec fn absorbed(self, unit: Option<Summary<F>>) -> Self {
        Tier {
            pending: match (self.pending, unit) {
                (Some(a), Some(s)) => Some(a.joined(s)),
                (None, s) => s,
                (a, None) => a,
            },
            seen: self.seen + 1,
            unknown: self.unknown + if unit is None {
                1nat
            } else {
                0nat
            },
            ..self
        }
    }

    /// What the slot reads as once its constituents are all there: unknown where
    /// more of them than tolerated are.
    pub open spec fn closing(self) -> Option<Summary<F>> {
        if exceeds(self.unknown, self.seen, self.spec.xff) {
            None
        } else {
            self.pending
        }
    }

    /// One more constituent, and the slot that it completes, if it does.
    pub open spec fn fed(self, unit: Option<Summary<F>>) -> (Self, Option<Option<Summary<F>>>) {
        let t = self.absorbed(unit);
        if t.seen < t.units {
            (t, None)
        } else {
            (
                Tier { ring: t.ring.with(t.closing()), pending: None, seen: 0, unknown: 0, ..t },
                Some(t.closing()),
            )
        }
    }
}

/// One step into the ladder: the finest archive absorbs it, and each closed slot is
/// consolidated into the archive above.
pub open spec fn stepped<F: Arith>(tiers: Seq<Tier<F>>, unit: Option<Summary<F>>) -> Seq<Tier<F>>
    decreases tiers.len(),
{
    if tiers.len() == 0 {
        tiers
    } else {
        let (t, closed) = tiers[0].fed(unit);
        seq![t] + match closed {
            Some(slot) => stepped(tiers.drop_first(), slot),
            None => tiers.drop_first(),
        }
    }
}

/// `n` steps without an observation.
pub open spec fn idled<F: Arith>(tiers: Seq<Tier<F>>, n: nat) -> Seq<Tier<F>>
    decreases n,
{
    if n == 0 {
        tiers
    } else {
        stepped(idled(tiers, (n - 1) as nat), None)
    }
}

pub open spec fn all_wf<F: Arith>(tiers: Seq<Tier<F>>, shape: Shape) -> bool {
    forall|i: int| 0 <= i < tiers.len() ==> (#[trigger] tiers[i]).wf(shape)
}

/// Whether no archive can come to hold more observations than can be counted, when
/// `below` more arrive: an archive can come to hold its slots, and what is
/// unfinished in it and in the archives below.
pub open spec fn laden<F: Arith>(tiers: Seq<Tier<F>>, below: nat) -> bool
    decreases tiers.len(),
{
    tiers.len() > 0 ==> {
        let load = below + count_of(tiers[0].pending);
        &&& counts_of(tiers[0].ring.slots) + load <= u64::MAX
        &&& laden(tiers.drop_first(), load)
    }
}

/// Whether `n` more slots can be counted in every archive.
pub open spec fn roomy<F: Arith>(tiers: Seq<Tier<F>>, n: nat) -> bool {
    forall|i: int| 0 <= i < tiers.len() ==> (#[trigger] tiers[i]).ring.written + n <= u64::MAX
}

/// Whether the archives are the same ones, whatever they hold.
pub open spec fn same_specs<F: Arith>(a: Seq<Tier<F>>, b: Seq<Tier<F>>) -> bool {
    &&& a.len() == b.len()
    &&& forall|i: int|
        0 <= i < a.len() ==> (#[trigger] a[i]).spec == b[i].spec && a[i].units == b[i].units
}

proof fn lemma_laden_less<F: Arith>(tiers: Seq<Tier<F>>, more: nat, less: nat)
    requires
        laden(tiers, more),
        less <= more,
    ensures
        laden(tiers, less),
    decreases tiers.len(),
{
    if tiers.len() > 0 {
        let p = count_of(tiers[0].pending);
        lemma_laden_less(tiers.drop_first(), more + p, less + p);
    }
}

/// No archive holds more observations than can be counted.
pub proof fn lemma_laden_slots<F: Arith>(tiers: Seq<Tier<F>>, below: nat, i: int)
    requires
        laden(tiers, below),
        0 <= i < tiers.len(),
    ensures
        counts_of(tiers[i].ring.slots) <= u64::MAX,
        count_of(tiers[i].pending) <= u64::MAX,
    decreases tiers.len(),
{
    if i > 0 {
        lemma_laden_slots(tiers.drop_first(), below + count_of(tiers[0].pending), i - 1);
    }
}

/// A constituent that can be counted keeps an archive in order.
pub proof fn lemma_fed<F: Arith>(tier: Tier<F>, unit: Option<Summary<F>>, shape: Shape)
    requires
        tier.wf(shape),
        fits(unit, shape),
        count_of(tier.pending) + count_of(unit) <= u64::MAX,
    ensures
        (tier.pending is Some && unit is Some) ==> tier.pending->0.addable(unit->0),
        tier.fed(unit).0.wf(shape),
        fits(tier.absorbed(unit).pending, shape),
        count_of(tier.absorbed(unit).pending) == count_of(tier.pending) + count_of(unit),
        tier.fed(unit).1 matches Some(slot) ==> fits(slot, shape) && count_of(slot)
            <= count_of(tier.pending) + count_of(unit),
{
    match (tier.pending, unit) {
        (Some(a), Some(s)) => {
            lemma_joined(a, s);
        },
        _ => {},
    }
    let t = tier.absorbed(unit);
    if t.seen >= t.units {
        let was = tier.ring.slots;
        let now = tier.ring.with(t.closing()).slots;
        lemma_counts_of_with(tier.ring, t.closing());
        assert forall|i: int| 0 <= i < now.len() implies fits(#[trigger] now[i], shape) by {
            if i < now.len() - 1 {
                if was.len() < tier.ring.capacity {
                    assert(now[i] == was[i]);
                } else {
                    assert(now[i] == was[i + 1]);
                }
            }
        }
    }
}

/// A step keeps the ladder in order, and moves no load that was not there or
/// arriving.
pub proof fn lemma_stepped<F: Arith>(
    tiers: Seq<Tier<F>>,
    unit: Option<Summary<F>>,
    shape: Shape,
    slack: nat,
)
    requires
        all_wf(tiers, shape),
        fits(unit, shape),
        laden(tiers, count_of(unit) + slack),
    ensures
        all_wf(stepped(tiers, unit), shape),
        same_specs(stepped(tiers, unit), tiers),
        laden(stepped(tiers, unit), slack),
        forall|i: int|
            0 <= i < tiers.len() ==> (#[trigger] stepped(tiers, unit)[i]).ring.written
                <= tiers[i].ring.written + 1,
    decreases tiers.len(),
{
    if tiers.len() > 0 {
        let t = tiers[0];
        let rest = tiers.drop_first();
        let load = count_of(t.pending) + count_of(unit);
        assert(t.wf(shape));
        assert forall|i: int| 0 <= i < rest.len() implies (#[trigger] rest[i]).wf(shape) by {
            assert(tiers[i + 1].wf(shape));
        }
        lemma_fed(t, unit, shape);
        lemma_counts_of_with(t.ring, t.absorbed(unit).closing());
        let (now, closed) = t.fed(unit);
        let after = stepped(tiers, unit);
        let upper = match closed {
            Some(slot) => stepped(rest, slot),
            None => rest,
        };
        assert(count_of(unit) + slack + count_of(t.pending) == load + slack);
        assert(laden(rest, load + slack));
        match closed {
            Some(slot) => {
                lemma_laden_less(rest, load + slack, count_of(slot) + slack);
                lemma_stepped(rest, slot, shape, slack);
            },
            None => {},
        }
        assert(after =~= seq![now] + upper);
        assert(after.drop_first() =~= upper);
        assert(after[0] == now);
        assert forall|i: int| 0 <= i < after.len() implies {
            &&& (#[trigger] after[i]).wf(shape)
            &&& after[i].spec == tiers[i].spec
            &&& after[i].units == tiers[i].units
            &&& after[i].ring.written <= tiers[i].ring.written + 1
        } by {
            if i > 0 {
                assert(after[i] == upper[i - 1]);
                assert(rest[i - 1] == tiers[i]);
            }
        }
        if closed is None {
            assert(slack + count_of(now.pending) == load + slack);
        }
    }
}

/// Steps without an observation keep the ladder in order.
pub proof fn lemma_idled<F: Arith>(tiers: Seq<Tier<F>>, n: nat, shape: Shape, slack: nat)
    requires
        all_wf(tiers, shape),
        laden(tiers, slack),
    ensures
        all_wf(idled(tiers, n), shape),
        same_specs(idled(tiers, n), tiers),
        laden(idled(tiers, n), slack),
        forall|i: int|
            0 <= i < tiers.len() ==> (#[trigger] idled(tiers, n)[i]).ring.written
                <= tiers[i].ring.written + n,
    decreases n,
{
    if n > 0 {
        lemma_idled(tiers, (n - 1) as nat, shape, slack);
        let before = idled(tiers, (n - 1) as nat);
        lemma_stepped(before, None, shape, slack);
        let after = idled(tiers, n);
        assert forall|i: int| 0 <= i < tiers.len() implies {
            &&& (#[trigger] after[i]).spec == tiers[i].spec
            &&& after[i].units == tiers[i].units
            &&& after[i].ring.written <= tiers[i].ring.written + n
        } by {
            assert(before[i].spec == tiers[i].spec);
        }
    }
}

/// One archive of a signal.
pub struct ArchiveState<R> {
    spec: ArchiveSpec<R>,
    /// Constituents per slot: steps for the finest archive, child slots above.
    units_per_slot: u32,
    ring: Ring<R>,
    pending: Option<Slot<R>>,
    seen: u32,
    unknown: u32,
}

impl<R> View for ArchiveState<R> {
    type V = Tier<R>;

    closed spec fn view(&self) -> Tier<R> {
        Tier {
            spec: self.spec,
            units: self.units_per_slot as nat,
            ring: self.ring@,
            pending: summary_of(self.pending),
            seen: self.seen as nat,
            unknown: self.unknown as nat,
        }
    }
}

impl<R: Real> ArchiveState<R> {
    /// The ring is in order, and so is the archive.
    pub closed spec fn wf(&self, shape: Shape) -> bool {
        self.ring.wf() && self@.wf(shape)
    }

    pub(crate) fn new(spec: ArchiveSpec<R>, units_per_slot: u32, Ghost(shape): Ghost<Shape>) -> (r:
        Self)
        requires
            spec.slots > 0,
            units_per_slot > 0,
        ensures
            r@ == Tier::empty(spec, units_per_slot as nat),
            r.wf(shape),
    {
        let ring: Ring<R> = Ring::new(spec.slots as usize);
        ArchiveState { spec, units_per_slot, ring, pending: None, seen: 0, unknown: 0 }
    }

    pub(crate) fn spec(&self) -> (r: &ArchiveSpec<R>)
        ensures
            *r == self@.spec,
    {
        &self.spec
    }

    /// The closed slots.
    pub(crate) fn ring(&self, Ghost(shape): Ghost<Shape>) -> (r: &Ring<R>)
        requires
            self.wf(shape),
        ensures
            r.wf(),
            r@ == self@.ring,
            self@.wf(shape),
    {
        &self.ring
    }

    /// What is unfinished.
    pub(crate) fn pending(&self) -> (r: &Option<Slot<R>>)
        ensures
            summary_of(*r) == self@.pending,
    {
        &self.pending
    }

    /// Absorbs one constituent. Returns the completed slot when one closes, for
    /// the archive above to consolidate in turn.
    pub(crate) fn feed(&mut self, unit: Option<Slot<R>>, Ghost(shape): Ghost<Shape>) -> (r: Option<
        Option<Slot<R>>,
    >)
        requires
            old(self).wf(shape),
            fits(summary_of(unit), shape),
            count_of(old(self)@.pending) + count_of(summary_of(unit)) <= u64::MAX,
            old(self)@.ring.written < u64::MAX,
        ensures
            final(self).wf(shape),
            final(self)@ == old(self)@.fed(summary_of(unit)).0,
            match (r, old(self)@.fed(summary_of(unit)).1) {
                (Some(slot), Some(s)) => summary_of(slot) == s,
                (None, None) => true,
                _ => false,
            },
    {
        let ghost before = self@;
        let ghost given = summary_of(unit);
        proof {
            lemma_fed(before, given, shape);
        }
        let pending: Option<Slot<R>> = self.pending.take();
        match unit {
            Some(s) => {
                self.pending = match pending {
                    Some(acc) => {
                        let mut acc: Slot<R> = acc;
                        acc.merge(&s);
                        Some(acc)
                    },
                    None => Some(s),
                };
            },
            None => {
                self.pending = pending;
                self.unknown = self.unknown + 1;
            },
        }
        self.seen = self.seen + 1;
        assert(self@ == before.absorbed(given));

        if self.seen < self.units_per_slot {
            return None;
        }
        let ratio = R::from_count(self.unknown as u64).over(R::from_count(self.seen as u64));
        let too_sparse: bool = self.spec.xff.less(ratio);
        let pending: Option<Slot<R>> = self.pending.take();
        let done: Option<Slot<R>> = if too_sparse {
            None
        } else {
            pending
        };
        self.seen = 0;
        self.unknown = 0;
        self.ring.push(copy_of(&done));
        Some(done)
    }
}

/// What a list of archives holds.
pub open spec fn tiers_of<R>(archives: Seq<ArchiveState<R>>) -> Seq<Tier<R>> {
    archives.map_values(|a: ArchiveState<R>| a@)
}

/// Whether every archive of a list is in order.
pub open spec fn archives_wf<R: Real>(archives: Seq<ArchiveState<R>>, shape: Shape) -> bool {
    forall|i: int| 0 <= i < archives.len() ==> (#[trigger] archives[i]).wf(shape)
}

/// Archives in order hold what is in order.
pub proof fn lemma_archives_wf<R: Real>(archives: Seq<ArchiveState<R>>, shape: Shape)
    requires
        archives_wf(archives, shape),
    ensures
        all_wf(tiers_of(archives), shape),
{
    assert forall|i: int| 0 <= i < archives.len() implies (
    #[trigger] tiers_of(archives)[i]).wf(shape) by {
        assert(archives[i].wf(shape));
    }
}

proof fn lemma_laden_skip<F: Arith>(tiers: Seq<Tier<F>>, below: nat)
    requires
        tiers.len() > 0,
        laden(tiers, below),
    ensures
        counts_of(tiers[0].ring.slots) + below + count_of(tiers[0].pending) <= u64::MAX,
        laden(tiers.drop_first(), below + count_of(tiers[0].pending)),
{
}

/// Whether `n` more slots can be counted in every archive.
pub(crate) fn has_slots<R: Real>(
    archives: &Vec<ArchiveState<R>>,
    n: u64,
    Ghost(shape): Ghost<Shape>,
) -> (r: bool)
    requires
        archives_wf(archives@, shape),
    ensures
        r == roomy(tiers_of(archives@), n as nat),
{
    let ghost tiers = tiers_of(archives@);
    let len: usize = archives.len();
    let mut i: usize = 0;
    while i < len
        invariant
            i <= len == archives.len(),
            tiers == tiers_of(archives@),
            archives_wf(archives@, shape),
            forall|t: int| 0 <= t < i ==> (#[trigger] tiers[t]).ring.written + n <= u64::MAX,
        decreases len - i,
    {
        assert(archives@[i as int].wf(shape));
        assert(tiers[i as int] == archives@[i as int]@);
        if archives[i].ring(Ghost(shape)).written() > u64::MAX - n {
            return false;
        }
        i = i + 1;
    }
    true
}

/// Whether one observation more than `below` can be counted wherever it comes to be
/// held, where `below` can.
pub(crate) fn has_load<R: Real>(
    archives: &Vec<ArchiveState<R>>,
    below: u64,
    Ghost(shape): Ghost<Shape>,
) -> (r: bool)
    requires
        archives_wf(archives@, shape),
        laden(tiers_of(archives@), below as nat),
    ensures
        r == laden(tiers_of(archives@), (below + 1) as nat),
{
    let ghost tiers = tiers_of(archives@);
    let len: usize = archives.len();
    let mut load: u64 = below;
    let mut i: usize = 0;
    assert(tiers.skip(0) =~= tiers);
    while i < len
        invariant
            i <= len == archives.len(),
            tiers == tiers_of(archives@),
            archives_wf(archives@, shape),
            laden(tiers.skip(i as int), load as nat),
            laden(tiers, (below + 1) as nat) == laden(tiers.skip(i as int), (load + 1) as nat),
        decreases len - i,
    {
        proof {
            let rest = tiers.skip(i as int);
            lemma_laden_skip(rest, load as nat);
            assert(rest[0] == archives@[i as int]@);
            assert(rest.drop_first() =~= tiers.skip(i + 1));
            assert(archives@[i as int].wf(shape));
        }
        let held: u64 = archives[i].ring(Ghost(shape)).observations(Ghost(shape));
        let unfinished: u64 = match archives[i].pending() {
            Some(s) => s.count(),
            None => 0,
        };
        if held + load + unfinished == u64::MAX {
            return false;
        }
        load = load + unfinished;
        i = i + 1;
    }
    assert(tiers.skip(len as int).len() == 0);
    true
}

/// One step into the ladder: the finest archive absorbs it, and each closed
/// slot is consolidated into the archive above.
pub(crate) fn push_step<R: Real>(
    archives: &mut Vec<ArchiveState<R>>,
    slot: Option<Slot<R>>,
    Ghost(shape): Ghost<Shape>,
)
    requires
        archives_wf(old(archives)@, shape),
        fits(summary_of(slot), shape),
        laden(tiers_of(old(archives)@), count_of(summary_of(slot))),
        roomy(tiers_of(old(archives)@), 1),
    ensures
        archives_wf(final(archives)@, shape),
        tiers_of(final(archives)@) == stepped(tiers_of(old(archives)@), summary_of(slot)),
{
    let ghost start = tiers_of(archives@);
    let ghost goal = stepped(start, summary_of(slot));
    let n: usize = archives.len();
    let mut carry: Option<Slot<R>> = slot;
    let mut i: usize = 0;
    assert(start.skip(0) =~= start);
    assert(start.take(0) + goal =~= goal);
    assert(n == 0 ==> goal =~= start);
    while i < n
        invariant_except_break
            i <= n == archives.len() == start.len(),
            archives_wf(archives@, shape),
            fits(summary_of(carry), shape),
            roomy(start, 1),
            laden(start.skip(i as int), count_of(summary_of(carry))),
            tiers_of(archives@).skip(i as int) == start.skip(i as int),
            goal == tiers_of(archives@).take(i as int) + stepped(
                start.skip(i as int),
                summary_of(carry),
            ),
        ensures
            archives_wf(archives@, shape),
            tiers_of(archives@) == goal,
        decreases n - i,
    {
        let ghost before = archives@;
        let ghost rest = start.skip(i as int);
        let ghost unit = summary_of(carry);
        proof {
            lemma_laden_skip(rest, count_of(unit));
            assert(rest[0] == start[i as int]);
            assert(tiers_of(before).skip(i as int)[0] == tiers_of(before)[i as int]);
            assert(before[i as int].wf(shape));
            assert(start[i as int].ring.written + 1 <= u64::MAX);
            lemma_fed(rest[0], unit, shape);
            assert(rest.drop_first() =~= start.skip(i + 1));
        }
        let closed: Option<Option<Slot<R>>> = archives[i].feed(carry, Ghost(shape));
        proof {
            let now = archives@;
            assert(now.len() == before.len());
            assert forall|j: int| 0 <= j < now.len() implies (#[trigger] now[j]).wf(shape) by {
                if j != i {
                    assert(now[j] == before[j]);
                }
            }
            assert(tiers_of(now).skip(i + 1) =~= tiers_of(before).skip(i as int).drop_first());
            assert(tiers_of(now).take(i + 1) =~= tiers_of(before).take(i as int).push(
                rest[0].fed(unit).0,
            ));
            let upper = match rest[0].fed(unit).1 {
                Some(s) => stepped(start.skip(i + 1), s),
                None => start.skip(i + 1),
            };
            assert(stepped(rest, unit) == seq![rest[0].fed(unit).0] + upper);
            assert(goal =~= tiers_of(now).take(i + 1) + upper);
            if closed is None {
                assert(tiers_of(now) =~= tiers_of(now).take(i + 1) + tiers_of(now).skip(i + 1));
            }
        }
        i = i + 1;
        match closed {
            Some(done) => {
                carry = done;
                proof {
                    lemma_laden_less(
                        start.skip(i as int),
                        count_of(unit) + count_of(rest[0].pending),
                        count_of(summary_of(carry)),
                    );
                }
            },
            None => {
                break;
            },
        }
        proof {
            if i == n {
                assert(start.skip(n as int) =~= Seq::<Tier<R>>::empty());
                assert(goal =~= tiers_of(archives@));
            }
        }
    }
}

/// `gap` steps without an observation.
pub(crate) fn push_gap<R: Real>(
    archives: &mut Vec<ArchiveState<R>>,
    gap: u64,
    Ghost(shape): Ghost<Shape>,
)
    requires
        archives_wf(old(archives)@, shape),
        laden(tiers_of(old(archives)@), 0),
        roomy(tiers_of(old(archives)@), gap as nat),
    ensures
        archives_wf(final(archives)@, shape),
        tiers_of(final(archives)@) == idled(tiers_of(old(archives)@), gap as nat),
{
    let ghost start = tiers_of(archives@);
    let mut i: u64 = 0;
    proof {
        lemma_archives_wf(archives@, shape);
    }
    while i < gap
        invariant
            i <= gap,
            archives_wf(archives@, shape),
            all_wf(start, shape),
            laden(start, 0),
            roomy(start, gap as nat),
            tiers_of(archives@) == idled(start, i as nat),
        decreases gap - i,
    {
        proof {
            lemma_idled(start, i as nat, shape, 0);
            let now = idled(start, i as nat);
            assert forall|j: int| 0 <= j < now.len() implies (#[trigger] now[j]).ring.written + 1
                <= u64::MAX by {
                assert(start[j].ring.written + gap <= u64::MAX);
            }
        }
        push_step(archives, None, Ghost(shape));
        i = i + 1;
    }
}

} // verus!
