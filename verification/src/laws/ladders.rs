//! Consolidation: what a slot up the ladder is made of, and what is left of the
//! slots below.

use vstd::prelude::*;

use crate::arith::Arith;
use crate::channel::Channel;
use crate::decl::SignalPlan;
use crate::ladder::{idled, stepped, Tier};
use crate::laws::rings::{
    filled, last_of, law_absent_slots_fold_to_nothing, law_every_observation_is_counted,
    law_ring_holds_the_last, law_what_is_overwritten_is_gone,
};
use crate::ring::{absent, count_of, counts_of, exceeds, foldable, folded};
use crate::slot::Summary;

verus! {

/// The archive after the constituents, one after the other.
pub open spec fn fed_all<F: Arith>(tier: Tier<F>, units: Seq<Option<Summary<F>>>) -> Tier<F>
    decreases units.len(),
{
    if units.len() == 0 {
        tier
    } else {
        fed_all(tier, units.drop_last()).fed(units.last()).0
    }
}

/// The slots that the archive closes on the way.
pub open spec fn closed_by<F: Arith>(
    tier: Tier<F>,
    units: Seq<Option<Summary<F>>>,
) -> Seq<Option<Summary<F>>>
    decreases units.len(),
{
    if units.len() == 0 {
        Seq::empty()
    } else {
        let before = closed_by(tier, units.drop_last());
        match fed_all(tier, units.drop_last()).fed(units.last()).1 {
            Some(slot) => before.push(slot),
            None => before,
        }
    }
}

/// The ladder after the steps, one after the other.
pub open spec fn ran<F: Arith>(
    tiers: Seq<Tier<F>>,
    steps: Seq<Option<Summary<F>>>,
) -> Seq<Tier<F>>
    decreases steps.len(),
{
    if steps.len() == 0 {
        tiers
    } else {
        stepped(ran(tiers, steps.drop_last()), steps.last())
    }
}

/// Whether an archive is between two slots.
pub open spec fn at_boundary<F: Arith>(tier: Tier<F>) -> bool {
    tier.seen == 0 && tier.unknown == 0 && tier.pending is None
}

/// What a slot reads as that is made of the constituents: unknown where more of them
/// than tolerated are, and otherwise all of them merged.
pub open spec fn consolidated<F: Arith>(xff: F, units: Seq<Option<Summary<F>>>) -> Option<
    Summary<F>,
> {
    if exceeds(absent(units), units.len(), xff) {
        None
    } else {
        folded(units)
    }
}

/// One more constituent either completes a slot, which is then written and handed on, and
/// leaves the archive between two slots; or it completes none, and nothing is written.
/// The archive itself stays what it was declared as.
pub proof fn law_a_slot_is_written_when_it_is_complete<F: Arith>(
    tier: Tier<F>,
    unit: Option<Summary<F>>,
)
    requires
        tier.unknown <= tier.seen < tier.units,
        tier.ring.wf(),
    ensures
        ({
            let (now, closed) = tier.fed(unit);
            &&& now.unknown <= now.seen < now.units
            &&& now.spec == tier.spec && now.units == tier.units
            &&& now.ring.capacity == tier.ring.capacity
            &&& closed is None <==> tier.seen + 1 < tier.units
            &&& closed is None ==> now.ring == tier.ring && now.seen == tier.seen + 1
            &&& closed matches Some(slot) ==> {
                &&& now.ring.written == tier.ring.written + 1
                &&& now.ring.newest_of() == slot
                &&& at_boundary(now)
            }
        }),
{
}

/// A slot is unknown where none of its constituents carries data, or more of them than
/// tolerated carry none; and otherwise it counts the observations of all of them.
pub proof fn law_a_slot_is_unknown_past_its_tolerance<F: Arith>(
    xff: F,
    units: Seq<Option<Summary<F>>>,
)
    ensures
        consolidated(xff, units) is None <==> absent(units) == units.len() || exceeds(
            absent(units),
            units.len(),
            xff,
        ),
        foldable(units) && consolidated(xff, units) is Some ==> count_of(
            consolidated(xff, units),
        ) == counts_of(units),
{
    law_absent_slots_fold_to_nothing(units);
    if foldable(units) {
        law_every_observation_is_counted(units);
    }
}

/// Fewer constituents than a slot has close none. They are merged, in order, and counted,
/// and so are those that carry no data.
pub proof fn law_an_unfinished_slot_is_not_closed<F: Arith>(
    tier: Tier<F>,
    units: Seq<Option<Summary<F>>>,
)
    requires
        at_boundary(tier),
        units.len() < tier.units,
    ensures
        fed_all(tier, units) == (Tier {
            pending: folded(units),
            seen: units.len(),
            unknown: absent(units),
            ..tier
        }),
        closed_by(tier, units).len() == 0,
    decreases units.len(),
{
    if units.len() > 0 {
        law_an_unfinished_slot_is_not_closed(tier, units.drop_last());
    }
}

/// From between two slots, the constituents of a slot make one slot, which is their
/// merge; and the archive is between two slots again.
pub proof fn law_slot_is_the_merge_of_its_constituents<F: Arith>(
    tier: Tier<F>,
    units: Seq<Option<Summary<F>>>,
)
    requires
        at_boundary(tier),
        tier.units > 0,
        units.len() == tier.units,
    ensures
        fed_all(tier, units) == (Tier {
            ring: tier.ring.with(consolidated(tier.spec.xff, units)),
            ..tier
        }),
        closed_by(tier, units) == seq![consolidated(tier.spec.xff, units)],
        at_boundary(fed_all(tier, units)),
{
    law_an_unfinished_slot_is_not_closed(tier, units.drop_last());
    assert(closed_by(tier, units.drop_last()) =~= Seq::empty());
    assert(closed_by(tier, units) =~= seq![consolidated(tier.spec.xff, units)]);
}

proof fn lemma_fed_concat<F: Arith>(
    tier: Tier<F>,
    a: Seq<Option<Summary<F>>>,
    b: Seq<Option<Summary<F>>>,
)
    ensures
        fed_all(tier, a + b) == fed_all(fed_all(tier, a), b),
        closed_by(tier, a + b) == closed_by(tier, a) + closed_by(fed_all(tier, a), b),
    decreases b.len(),
{
    if b.len() == 0 {
        assert(a + b =~= a);
        assert(closed_by(tier, a) + Seq::<Option<Summary<F>>>::empty() =~= closed_by(tier, a));
    } else {
        let before = b.drop_last();
        lemma_fed_concat(tier, a, before);
        assert((a + b).drop_last() =~= a + before);
        assert((a + b).last() == b.last());
        let (x, y) = (closed_by(tier, a), closed_by(fed_all(tier, a), before));
        match fed_all(fed_all(tier, a), before).fed(b.last()).1 {
            Some(slot) => {
                assert((x + y).push(slot) =~= x + y.push(slot));
            },
            None => {},
        }
    }
}

/// An archive is written with the slots that it closes, and with nothing else.
pub proof fn law_ring_holds_the_closed_slots<F: Arith>(
    tier: Tier<F>,
    units: Seq<Option<Summary<F>>>,
)
    ensures
        fed_all(tier, units).ring == filled(tier.ring, closed_by(tier, units)),
        fed_all(tier, units).spec == tier.spec,
        fed_all(tier, units).units == tier.units,
    decreases units.len(),
{
    if units.len() > 0 {
        let before = units.drop_last();
        law_ring_holds_the_closed_slots(tier, before);
        match fed_all(tier, before).fed(units.last()).1 {
            Some(slot) => {
                assert(closed_by(tier, before).push(slot).drop_last() =~= closed_by(tier, before));
            },
            None => {},
        }
    }
}

/// A ladder is its finest archive, fed with the steps, below the ladder of the others,
/// fed with the slots that the finest closes.
pub proof fn law_closed_slots_feed_the_archive_above<F: Arith>(
    tiers: Seq<Tier<F>>,
    steps: Seq<Option<Summary<F>>>,
)
    requires
        tiers.len() > 0,
    ensures
        ran(tiers, steps) == seq![fed_all(tiers[0], steps)] + ran(
            tiers.drop_first(),
            closed_by(tiers[0], steps),
        ),
        ran(tiers, steps).len() == tiers.len(),
    decreases steps.len(),
{
    let upper = tiers.drop_first();
    if steps.len() == 0 {
        assert(tiers =~= seq![tiers[0]] + upper);
    } else {
        let before = steps.drop_last();
        law_closed_slots_feed_the_archive_above(tiers, before);
        let was = ran(tiers, before);
        let (t, closed) = (fed_all(tiers[0], before), closed_by(tiers[0], before));
        assert(was[0] == t);
        assert(was.drop_first() =~= ran(upper, closed));
        match t.fed(steps.last()).1 {
            Some(slot) => {
                assert(closed.push(slot).drop_last() =~= closed);
                assert(ran(upper, closed.push(slot)) == stepped(ran(upper, closed), slot));
                lemma_stepped_len(ran(upper, closed), slot);
            },
            None => {},
        }
    }
}

proof fn lemma_stepped_len<F: Arith>(tiers: Seq<Tier<F>>, unit: Option<Summary<F>>)
    ensures
        stepped(tiers, unit).len() == tiers.len(),
    decreases tiers.len(),
{
    if tiers.len() > 0 {
        match tiers[0].fed(unit).1 {
            Some(slot) => {
                lemma_stepped_len(tiers.drop_first(), slot);
            },
            None => {},
        }
    }
}

/// The `j`th of the runs of `n` that a sequence is cut into.
pub open spec fn run_of<T>(all: Seq<T>, n: nat, j: int) -> Seq<T> {
    all.subrange(j * n, (j + 1) * n)
}

pub(crate) proof fn lemma_run_bounds(len: nat, n: nat, blocks: nat, j: int)
    requires
        n > 0,
        len == blocks * n,
        0 <= j < blocks,
    ensures
        0 <= j * n,
        j * n + n == (j + 1) * n,
        (j + 1) * n <= len,
{
    assert(0 <= j * n) by (nonlinear_arith)
        requires
            0 <= j,
    ;
    assert(j * n + n == (j + 1) * n) by (nonlinear_arith);
    assert((j + 1) * n <= blocks * n) by (nonlinear_arith)
        requires
            j + 1 <= blocks,
            n > 0,
    ;
}

proof fn lemma_whole_runs<F: Arith>(
    tier: Tier<F>,
    units: Seq<Option<Summary<F>>>,
    blocks: nat,
)
    requires
        at_boundary(tier),
        tier.units > 0,
        units.len() == blocks * tier.units,
    ensures
        closed_by(tier, units) == Seq::new(
            blocks,
            |j: int| consolidated(tier.spec.xff, run_of(units, tier.units, j)),
        ),
        at_boundary(fed_all(tier, units)),
    decreases blocks,
{
    let n = tier.units;
    let goal = Seq::new(blocks, |j: int| consolidated(tier.spec.xff, run_of(units, n, j)));
    if blocks == 0 {
        assert(0 * n == 0) by (nonlinear_arith);
        assert(closed_by(tier, units) =~= goal);
    } else {
        let less = (blocks - 1) as nat;
        lemma_run_bounds(units.len(), n, blocks, less as int);
        let cut = less * n;
        let (head, tail) = (units.take(cut as int), units.skip(cut as int));
        assert(head.len() == less * n);
        lemma_whole_runs(tier, head, less);
        lemma_fed_concat(tier, head, tail);
        assert(head + tail =~= units);
        let mid = fed_all(tier, head);
        law_ring_holds_the_closed_slots(tier, head);
        law_slot_is_the_merge_of_its_constituents(mid, tail);
        assert(tail =~= run_of(units, n, less as int));
        assert forall|j: int| 0 <= j < less implies run_of(head, n, j) == #[trigger] run_of(
            units,
            n,
            j,
        ) by {
            lemma_run_bounds(head.len(), n, less, j);
            assert(run_of(head, n, j) =~= run_of(units, n, j));
        }
        let made = closed_by(tier, head) + closed_by(mid, tail);
        assert forall|j: int| 0 <= j < blocks implies made[j] == goal[j] by {
            if j < less {
                assert(closed_by(tier, head)[j] == consolidated(
                    tier.spec.xff,
                    run_of(head, n, j),
                ));
            }
        }
        assert(made =~= goal);
    }
}

/// From between two slots, every whole run of constituents makes a slot, in order: the
/// `j`th slot is the merge of the `j`th run, and an unfinished run makes none.
pub proof fn law_slots_are_the_runs<F: Arith>(tier: Tier<F>, units: Seq<Option<Summary<F>>>)
    requires
        at_boundary(tier),
        tier.units > 0,
    ensures
        closed_by(tier, units) == Seq::new(
            units.len() / tier.units,
            |j: int| consolidated(tier.spec.xff, run_of(units, tier.units, j)),
        ),
{
    let n = tier.units;
    let blocks = units.len() / n;
    let cut = blocks * n;
    assert(cut <= units.len() < cut + n) by (nonlinear_arith)
        requires
            n > 0,
            blocks == units.len() / n,
            cut == blocks * n,
    ;
    let (head, tail) = (units.take(cut as int), units.skip(cut as int));
    assert(head + tail =~= units);
    lemma_whole_runs(tier, head, blocks);
    lemma_fed_concat(tier, head, tail);
    law_ring_holds_the_closed_slots(tier, head);
    law_an_unfinished_slot_is_not_closed(fed_all(tier, head), tail);
    let goal = Seq::new(blocks, |j: int| consolidated(tier.spec.xff, run_of(units, n, j)));
    assert forall|j: int| 0 <= j < blocks implies closed_by(tier, units)[j] == goal[j] by {
        lemma_run_bounds(head.len(), n, blocks, j);
        assert(run_of(head, n, j) =~= run_of(units, n, j));
        assert(closed_by(tier, head)[j] == consolidated(tier.spec.xff, run_of(head, n, j)));
    }
    assert(closed_by(tier, units) =~= goal);
}

/// A whole multiple is what it is a multiple of, that many times.
proof fn lemma_whole_multiple(span: u32, part: u32)
    requires
        0 < part,
        span % part == 0,
    ensures
        part as nat * (span as int / part as int) as nat == span,
        span >= part ==> span as int / part as int > 0,
{
    vstd::arithmetic::div_mod::lemma_fundamental_div_mod(span as int, part as int);
    let q = span as int / part as int;
    assert(q >= 0 && (span >= part ==> q > 0)) by (nonlinear_arith)
        requires
            0 < part,
            q == span as int / part as int,
            span >= 0,
    ;
}

/// A slot of the `i`th archive of a sound signal has constituents, which span its steps.
pub(crate) proof fn lemma_units_span<F: Arith>(plan: SignalPlan<F>, i: int)
    requires
        plan.valid(),
        0 <= i < plan.archives.len(),
    ensures
        plan.units(i) > 0,
        i > 0 ==> plan.archives[i - 1].steps_per_slot as nat * plan.units(i) as nat
            == plan.archives[i].steps_per_slot,
        plan.archives[i].slots > 0,
        plan.archives[i].steps_per_slot > 0,
{
    assert(plan.archives[i].steps_per_slot > 0);
    if i > 0 {
        assert(plan.archives[i - 1].steps_per_slot > 0);
        assert(plan.archives[i - 1].steps_per_slot < plan.archives[i].steps_per_slot);
        lemma_whole_multiple(
            plan.archives[i].steps_per_slot,
            plan.archives[i - 1].steps_per_slot,
        );
    }
}

/// How many slots the `i`th archive closes, when `n` constituents reach the first.
spec fn closings<F>(tiers: Seq<Tier<F>>, n: nat, i: int) -> nat
    decreases i,
{
    if i <= 0 {
        n / tiers[0].units
    } else {
        closings(tiers.drop_first(), n / tiers[0].units, i - 1)
    }
}

/// Whether every archive is between two slots, and can be written to.
spec fn all_at_boundary<F: Arith>(tiers: Seq<Tier<F>>) -> bool {
    forall|i: int|
        0 <= i < tiers.len() ==> at_boundary(#[trigger] tiers[i]) && tiers[i].units > 0
            && tiers[i].ring.wf()
}

proof fn lemma_written<F: Arith>(
    tiers: Seq<Tier<F>>,
    steps: Seq<Option<Summary<F>>>,
    i: int,
)
    requires
        all_at_boundary(tiers),
        0 <= i < tiers.len(),
    ensures
        ran(tiers, steps)[i].ring.written == tiers[i].ring.written + closings(
            tiers,
            steps.len(),
            i,
        ),
    decreases i,
{
    assert(at_boundary(tiers[0]) && tiers[0].units > 0);
    let closed = closed_by(tiers[0], steps);
    law_closed_slots_feed_the_archive_above(tiers, steps);
    law_slots_are_the_runs(tiers[0], steps);
    if i == 0 {
        law_ring_holds_the_closed_slots(tiers[0], steps);
        law_ring_holds_the_last(tiers[0].ring, closed);
    } else {
        let upper = tiers.drop_first();
        assert forall|j: int| 0 <= j < upper.len() implies at_boundary(#[trigger] upper[j])
            && upper[j].units > 0 && upper[j].ring.wf() by {
            assert(at_boundary(tiers[j + 1]));
        }
        lemma_written(upper, closed, i - 1);
        assert(ran(tiers, steps)[i] == ran(upper, closed)[i - 1]);
    }
}

proof fn lemma_closings<F>(tiers: Seq<Tier<F>>, n: nat, i: int)
    requires
        0 < i < tiers.len(),
        forall|j: int| 0 <= j < tiers.len() ==> (#[trigger] tiers[j]).units > 0,
    ensures
        closings(tiers, n, i) == closings(tiers, n, i - 1) / tiers[i].units,
    decreases i,
{
    let upper = tiers.drop_first();
    assert(tiers[0].units > 0);
    let rest = n / tiers[0].units;
    assert(upper[i - 1] == tiers[i]);
    assert(closings(tiers, n, i) == closings(upper, rest, i - 1));
    if i == 1 {
        assert(closings(tiers, n, 0) == rest);
        assert(closings(upper, rest, 0) == rest / upper[0].units);
    } else {
        assert forall|j: int| 0 <= j < upper.len() implies (#[trigger] upper[j]).units > 0 by {
            assert(tiers[j + 1].units > 0);
        }
        lemma_closings(upper, rest, i - 1);
        assert(closings(tiers, n, i - 1) == closings(upper, rest, i - 2));
    }
}

proof fn lemma_closings_of_plan<F: Arith>(plan: SignalPlan<F>, n: nat, i: int)
    requires
        plan.valid(),
        0 <= i < plan.archives.len(),
    ensures
        closings(Channel::empty(plan).tiers, n, i) == n / plan.archives[i].steps_per_slot as nat,
    decreases i,
{
    let tiers = Channel::empty(plan).tiers;
    lemma_units_span(plan, i);
    if i > 0 {
        lemma_units_span(plan, i - 1);
        assert forall|j: int| 0 <= j < tiers.len() implies (#[trigger] tiers[j]).units > 0 by {
            lemma_units_span(plan, j);
        }
        lemma_closings(tiers, n, i);
        lemma_closings_of_plan(plan, n, i - 1);
        let (a, b) = (plan.archives[i - 1].steps_per_slot as int, plan.units(i));
        vstd::arithmetic::div_mod::lemma_div_denominator(n as int, a, b);
        assert(a * b == plan.archives[i].steps_per_slot);
    }
}

/// Every archive of a signal closes one slot for as many steps as its slots span, whether
/// or not the steps carry data: after any steps, it has written as many slots as fit in
/// them.
pub proof fn law_slots_are_written_on_time<F: Arith>(
    plan: SignalPlan<F>,
    steps: Seq<Option<Summary<F>>>,
    i: int,
)
    requires
        plan.valid(),
        0 <= i < plan.archives.len(),
    ensures
        ran(Channel::empty(plan).tiers, steps)[i].ring.written == steps.len()
            / plan.archives[i].steps_per_slot as nat,
{
    let tiers = Channel::empty(plan).tiers;
    assert forall|j: int| 0 <= j < tiers.len() implies at_boundary(#[trigger] tiers[j])
        && tiers[j].units > 0 && tiers[j].ring.wf() by {
        lemma_units_span(plan, j);
    }
    lemma_written(tiers, steps, i);
    lemma_closings_of_plan(plan, steps.len(), i);
}

proof fn lemma_not_at_boundary<F: Arith>(tier: Tier<F>, units: Seq<Option<Summary<F>>>)
    requires
        tier.seen < tier.units,
        units.len() == tier.units - tier.seen,
    ensures
        at_boundary(fed_all(tier, units)),
        closed_by(tier, units).len() == 1,
    decreases units.len(),
{
    lemma_until_boundary(tier, units.drop_last());
}

proof fn lemma_until_boundary<F: Arith>(tier: Tier<F>, units: Seq<Option<Summary<F>>>)
    requires
        tier.seen + units.len() < tier.units,
    ensures
        fed_all(tier, units).seen == tier.seen + units.len(),
        fed_all(tier, units).units == tier.units,
        closed_by(tier, units).len() == 0,
    decreases units.len(),
{
    if units.len() > 0 {
        lemma_until_boundary(tier, units.drop_last());
    }
}

/// An archive closes a slot whenever the constituents of one are there.
proof fn lemma_closed_len<F: Arith>(
    tier: Tier<F>,
    units: Seq<Option<Summary<F>>>,
    slots: nat,
)
    requires
        at_boundary(tier),
        tier.units > 0,
        units.len() >= slots * tier.units,
    ensures
        closed_by(tier, units).len() >= slots,
{
    let cut = slots * tier.units;
    let (head, tail) = (units.take(cut as int), units.skip(cut as int));
    assert(head + tail =~= units);
    lemma_whole_runs(tier, head, slots);
    lemma_fed_concat(tier, head, tail);
}

/// Which slots an archive closes depends on its declaration and on what it is fed,
/// and not on what it holds.
proof fn lemma_closed_regardless<F: Arith>(
    a: Tier<F>,
    b: Tier<F>,
    units: Seq<Option<Summary<F>>>,
)
    requires
        at_boundary(a),
        at_boundary(b),
        a.spec == b.spec,
        a.units == b.units,
    ensures
        closed_by(a, units) == closed_by(b, units),
        fed_all(a, units) == (Tier { ring: fed_all(a, units).ring, ..fed_all(b, units) }),
    decreases units.len(),
{
    if units.len() > 0 {
        lemma_closed_regardless(a, b, units.drop_last());
    }
}

/// Once as many steps have passed as an archive retains, nothing that it held before
/// is in it: two archives of one declaration that were fed the same since hold the
/// same slots, whatever they held.
pub proof fn law_expired_detail_is_gone<F: Arith>(
    a: Tier<F>,
    b: Tier<F>,
    units: Seq<Option<Summary<F>>>,
)
    requires
        a.spec == b.spec,
        a.units == b.units,
        a.ring.wf(),
        b.ring.wf(),
        a.ring.capacity == a.spec.slots,
        b.ring.capacity == b.spec.slots,
        at_boundary(a),
        at_boundary(b),
        a.units > 0,
        units.len() >= a.spec.slots * a.units,
    ensures
        fed_all(a, units).ring.slots == fed_all(b, units).ring.slots,
        fed_all(a, units).ring.slots == last_of(closed_by(a, units), a.spec.slots as nat),
{
    lemma_closed_len(a, units, a.spec.slots as nat);
    lemma_closed_regardless(a, b, units);
    law_ring_holds_the_closed_slots(a, units);
    law_ring_holds_the_closed_slots(b, units);
    law_what_is_overwritten_is_gone(a.ring, b.ring, closed_by(a, units));
}

/// So it is in the middle of a slot too, one slot later.
pub proof fn law_expired_detail_is_gone_mid_slot<F: Arith>(
    a: Tier<F>,
    b: Tier<F>,
    units: Seq<Option<Summary<F>>>,
)
    requires
        a.spec == b.spec,
        a.units == b.units,
        a.seen == b.seen,
        a.ring.wf(),
        b.ring.wf(),
        a.ring.capacity == a.spec.slots,
        b.ring.capacity == b.spec.slots,
        a.seen < a.units,
        units.len() >= a.spec.slots * a.units + a.units - a.seen,
    ensures
        fed_all(a, units).ring.slots == fed_all(b, units).ring.slots,
{
    let cut = a.units - a.seen;
    assert(a.spec.slots * a.units >= 0) by (nonlinear_arith)
        requires
            a.spec.slots >= 0,
            a.units >= 0,
    ;
    let (head, tail) = (units.take(cut), units.skip(cut));
    assert(head + tail =~= units);
    lemma_not_at_boundary(a, head);
    lemma_not_at_boundary(b, head);
    lemma_fed_concat(a, head, tail);
    lemma_fed_concat(b, head, tail);
    law_ring_holds_the_closed_slots(a, head);
    law_ring_holds_the_closed_slots(b, head);
    law_ring_holds_the_last(a.ring, closed_by(a, head));
    law_ring_holds_the_last(b.ring, closed_by(b, head));
    law_expired_detail_is_gone(fed_all(a, head), fed_all(b, head), tail);
}

/// Steps without an observation.
pub open spec fn silence<F>(n: nat) -> Seq<Option<Summary<F>>> {
    Seq::new(n, |i: int| None)
}

/// A gap is steps without an observation, one after the other.
pub proof fn law_gap_is_silence<F: Arith>(tiers: Seq<Tier<F>>, n: nat)
    ensures
        idled(tiers, n) == ran(tiers, silence(n)),
    decreases n,
{
    if n > 0 {
        law_gap_is_silence(tiers, (n - 1) as nat);
        assert(silence::<F>(n).drop_last() =~= silence((n - 1) as nat));
    }
}

proof fn lemma_silence_closes_nothing_known<F: Arith>(tier: Tier<F>, n: nat)
    requires
        at_boundary(tier),
    ensures
        forall|i: int|
            0 <= i < closed_by(tier, silence(n)).len() ==> (#[trigger] closed_by(
                tier,
                silence(n),
            )[i]) is None,
        fed_all(tier, silence(n)).pending is None,
    decreases n,
{
    if n > 0 {
        lemma_silence_closes_nothing_known(tier, (n - 1) as nat);
        assert(silence::<F>(n).drop_last() =~= silence((n - 1) as nat));
        let before = closed_by(tier, silence((n - 1) as nat));
        let now = closed_by(tier, silence(n));
        assert forall|i: int| 0 <= i < now.len() implies (#[trigger] now[i]) is None by {
            if i < before.len() {
                assert(now[i] == before[i]);
            }
        }
    }
}

/// After a gap as long as the finest archive retains, it holds no data at all. It is
/// full of slots, and all of them are absent.
pub proof fn law_long_gap_leaves_no_data<F: Arith>(tiers: Seq<Tier<F>>, n: nat)
    requires
        tiers.len() > 0,
        at_boundary(tiers[0]),
        tiers[0].units > 0,
        tiers[0].ring.wf(),
        tiers[0].ring.capacity == tiers[0].spec.slots,
        n >= tiers[0].spec.slots * tiers[0].units,
    ensures
        idled(tiers, n)[0].ring.slots == silence::<F>(tiers[0].spec.slots as nat),
        folded(idled(tiers, n)[0].ring.slots) is None,
        absent(idled(tiers, n)[0].ring.slots) == idled(tiers, n)[0].ring.slots.len(),
{
    let t = tiers[0];
    let gone = silence::<F>(n);
    law_gap_is_silence(tiers, n);
    law_closed_slots_feed_the_archive_above(tiers, gone);
    assert(idled(tiers, n)[0] == fed_all(t, gone));
    law_expired_detail_is_gone(t, t, gone);
    lemma_closed_len(t, gone, t.spec.slots as nat);
    lemma_silence_closes_nothing_known(t, n);
    let slots = fed_all(t, gone).ring.slots;
    let closed = closed_by(t, gone);
    assert forall|i: int| 0 <= i < slots.len() implies (#[trigger] slots[i]) is None by {
        assert(slots[i] == closed[i + closed.len() - slots.len()]);
    }
    assert(slots =~= silence::<F>(t.spec.slots as nat));
    law_absent_slots_fold_to_nothing(slots);
}

/// Replaying a longer gap would only overwrite the finest archive again: it holds the
/// same slots as after the steps that it retains.
pub proof fn law_collapsed_gap_leaves_the_same<F: Arith>(tiers: Seq<Tier<F>>, n: nat)
    requires
        tiers.len() > 0,
        at_boundary(tiers[0]),
        tiers[0].units > 0,
        tiers[0].ring.wf(),
        tiers[0].ring.capacity == tiers[0].spec.slots,
        n >= tiers[0].spec.slots * tiers[0].units,
    ensures
        idled(tiers, n)[0].ring.slots == idled(
            tiers,
            (tiers[0].spec.slots * tiers[0].units) as nat,
        )[0].ring.slots,
{
    law_long_gap_leaves_no_data(tiers, n);
    law_long_gap_leaves_no_data(tiers, (tiers[0].spec.slots * tiers[0].units) as nat);
}

} // verus!
