//! The store as a whole: what an operation leaves alone, and how refusals are told
//! apart.

use vstd::prelude::*;

use crate::arith::Arith;
use crate::channel::{Channel, Sample};
use crate::decl::{lemma_resolutions_ascend, Plan, SignalPlan, HEADER_BYTES};
use crate::grant::{ascends, Refusal};
use crate::ladder::{laden, Tier};
use crate::laws::readings::law_an_archive_is_read_or_withheld;
use crate::laws::signals::{law_long_silences_are_alike, lemma_retention};
use crate::ring::{count_of, counts_of};
use crate::store::{is_last, lemma_last_unique, seq_of, Memory};

verus! {

/// The footprint is fixed by the declaration, and no observation moves it.
pub proof fn law_footprint_never_moves<F: Arith>(
    m: Memory<F>,
    name: Seq<char>,
    at_secs: u64,
    obs: Sample<F>,
)
    ensures
        m.observed(name, at_secs, obs).plan == m.plan,
        m.flushed(name).plan == m.plan,
        m.observed(name, at_secs, obs).plan.footprint() == m.plan.footprint(),
        m.flushed(name).plan.footprint() == m.plan.footprint(),
        Memory::<F>::empty(m.plan).plan.footprint() == m.plan.footprint(),
{
}

/// An observation, taken or refused, or closing a step, touches one signal and leaves the
/// others as they are: whoever reads one of them, under whatever grant, reads what they
/// did before.
pub proof fn law_signals_are_independent<F: Arith>(
    m: Memory<F>,
    name: Seq<char>,
    at_secs: u64,
    obs: Sample<F>,
    i: int,
)
    requires
        m.wf(),
        0 <= i < m.channels.len(),
        m.find(name) != Some(i),
    ensures
        m.observed(name, at_secs, obs).channels[i] == m.channels[i],
        m.flushed(name).channels[i] == m.channels[i],
        forall|grant: Set<u64>| #[trigger]
            m.observed(name, at_secs, obs).outlook(i, grant) == m.outlook(i, grant),
        forall|grant: Set<u64>| #[trigger]
            m.flushed(name).outlook(i, grant) == m.outlook(i, grant),
        forall|other: Seq<char>| #[trigger]
            m.observed(name, at_secs, obs).find(other) == m.find(other),
        forall|other: Seq<char>| #[trigger] m.flushed(name).find(other) == m.find(other),
{
    if m.find(name) is Some {
        let c = choose|c: int| is_last(m.plan.signals, name, c);
        assert(is_last(m.plan.signals, name, c));
    }
    let (seen, done) = (m.observed(name, at_secs, obs), m.flushed(name));
    assert forall|other: Seq<char>| #[trigger] seen.find(other) == m.find(other) by {
        lemma_same_names(m, seen, other);
    }
    assert forall|other: Seq<char>| #[trigger] done.find(other) == m.find(other) by {
        lemma_same_names(m, done, other);
    }
}

proof fn lemma_same_names<F: Arith>(a: Memory<F>, b: Memory<F>, name: Seq<char>)
    requires
        a.plan == b.plan,
    ensures
        a.find(name) == b.find(name),
{
}

/// Closing the step in progress twice is closing it once.
pub proof fn law_flush_is_idempotent<F: Arith>(m: Memory<F>, name: Seq<char>)
    requires
        m.wf(),
    ensures
        m.flushed(name).flushed(name) == m.flushed(name),
{
    let once = m.flushed(name);
    assert(once.plan == m.plan);
    if let Some(i) = m.find(name) {
        assert(is_last(m.plan.signals, name, i));
        lemma_last_unique(once, name, i);
        assert(once.flushed(name).channels =~= once.channels);
    }
}

/// However long a signal was silent, once that is longer than its finest archive retains
/// it reads the same afterwards, under every grant.
pub proof fn law_long_silences_read_alike<F: Arith>(
    m: Memory<F>,
    name: Seq<char>,
    i: int,
    a_secs: u64,
    b_secs: u64,
    obs: Sample<F>,
    grant: Set<u64>,
)
    requires
        m.wf(),
        m.find(name) == Some(i),
        m.channels[i].step is Some,
        m.step_of(a_secs) > m.channels[i].step->0 + m.channels[i].plan.retention(),
        m.step_of(b_secs) > m.channels[i].step->0 + m.channels[i].plan.retention(),
    ensures
        m.observed(name, a_secs, obs).find(name) == Some(i),
        m.observed(name, b_secs, obs).find(name) == Some(i),
        m.observed(name, a_secs, obs).outlook(i, grant) == m.observed(
            name,
            b_secs,
            obs,
        ).outlook(i, grant),
        m.observed(name, a_secs, obs).outlook(i, grant).report(name) == m.observed(
            name,
            b_secs,
            obs,
        ).outlook(i, grant).report(name),
{
    assert(is_last(m.plan.signals, name, i));
    lemma_same_names(m, m.observed(name, a_secs, obs), name);
    lemma_same_names(m, m.observed(name, b_secs, obs), name);
    law_long_silences_are_alike(m.channels[i], m.step_of(a_secs), m.step_of(b_secs), obs);
}

/// A name that is not declared is refused, and changes nothing.
pub proof fn law_unknown_signals_change_nothing<F: Arith>(
    m: Memory<F>,
    name: Seq<char>,
    at_secs: u64,
    obs: Sample<F>,
)
    requires
        forall|i: int| 0 <= i < m.plan.signals.len() ==> (#[trigger] m.plan.signals[i]).name
            != name,
    ensures
        m.find(name) is None,
        m.observed(name, at_secs, obs) == m,
        m.flushed(name) == m,
{
    assert(forall|i: int| !is_last(m.plan.signals, name, i));
}

/// Every declared name finds a signal of that name.
pub proof fn law_declared_signals_are_found<F: Arith>(m: Memory<F>, i: int)
    requires
        0 <= i < m.plan.signals.len(),
    ensures
        m.find(m.plan.signals[i].name) matches Some(j) && 0 <= j < m.plan.signals.len()
            && m.plan.signals[j].name == m.plan.signals[i].name && i <= j,
{
    lemma_some_last(m.plan.signals, m.plan.signals[i].name, i);
    let name = m.plan.signals[i].name;
    let j = choose|j: int| is_last(m.plan.signals, name, j);
    lemma_last_unique(m, name, j);
    if j < i {
        assert(m.plan.signals[i].name != name);
    }
}

proof fn lemma_some_last<F>(signals: Seq<SignalPlan<F>>, name: Seq<char>, i: int)
    requires
        0 <= i < signals.len(),
        signals[i].name == name,
    ensures
        exists|j: int| is_last(signals, name, j),
    decreases signals.len() - i,
{
    if is_last(signals, name, i) {
    } else {
        let j = choose|j: int| i < j < signals.len() && (#[trigger] signals[j]).name == name;
        lemma_some_last(signals, name, j);
    }
}

/// A read at one resolution has one answer: the refusals are told apart, and none of
/// them stands beside an answer. What was never declared is refused as that whatever
/// is granted, and what is declared and not granted is refused as that.
pub proof fn law_refusals_are_told_apart<F: Arith>(
    m: Memory<F>,
    name: Seq<char>,
    resolution_secs: u64,
    grant: Set<u64>,
    a: Refusal,
    b: Refusal,
)
    requires
        m.refused_at(name, resolution_secs, grant, a),
        m.refused_at(name, resolution_secs, grant, b),
    ensures
        a is UnknownSignal <==> b is UnknownSignal,
        a is NotDeclared <==> b is NotDeclared,
        a is NotGranted <==> b is NotGranted,
        !(a is WrongKind),
        forall|i: int, j: int| !m.answered_at(name, resolution_secs, grant, i, j),
        m.find(name) is None <==> a is UnknownSignal,
        m.find(name) matches Some(i) ==> (a is NotDeclared <==> !m.outlook(i, grant).offers(
            resolution_secs as nat,
        )),
{
    assert forall|i: int, j: int| !m.answered_at(name, resolution_secs, grant, i, j) by {
        if m.answered_at(name, resolution_secs, grant, i, j) {
            assert(m.outlook(i, grant).resolution(j) == resolution_secs);
            assert(m.outlook(i, grant).offers(resolution_secs as nat));
        }
    }
}

/// A granted resolution that a signal offers is answered, and never refused.
pub proof fn law_granted_resolutions_are_answered<F: Arith>(
    m: Memory<F>,
    name: Seq<char>,
    resolution_secs: u64,
    grant: Set<u64>,
    i: int,
    refusal: Refusal,
)
    requires
        m.find(name) == Some(i),
        m.outlook(i, grant).offers(resolution_secs as nat),
        grant.contains(resolution_secs),
    ensures
        exists|j: int| m.answered_at(name, resolution_secs, grant, i, j),
        !m.refused_at(name, resolution_secs, grant, refusal),
{
    let o = m.outlook(i, grant);
    let j = choose|j: int|
        0 <= j < o.tiers.len() && #[trigger] o.resolution(j) == resolution_secs;
    assert(m.answered_at(name, resolution_secs, grant, i, j));
}

/// What a read at one resolution answers is a window of the whole reading.
pub proof fn law_one_resolution_reads_as_in_the_whole<F: Arith>(
    m: Memory<F>,
    name: Seq<char>,
    resolution_secs: u64,
    grant: Set<u64>,
    i: int,
    j: int,
)
    requires
        m.answered_at(name, resolution_secs, grant, i, j),
    ensures
        m.outlook(i, grant).report(name).windows.contains(m.outlook(i, grant).pane(j)),
        m.outlook(i, grant).pane(j).resolution_secs == resolution_secs,
{
    law_an_archive_is_read_or_withheld(m.outlook(i, grant), j);
}

/// The archives of a sound signal coarsen, so its resolutions ascend, and no two are
/// the same.
pub proof fn law_resolutions_ascend<F: Arith>(plan: Plan<F>, s: SignalPlan<F>)
    requires
        s.valid(),
        plan.step_secs > 0,
        plan.signal_resolvable(s),
    ensures
        ascends(plan.resolutions_in(s)),
{
    lemma_resolutions_ascend(plan, s);
}

/// A time falls into the step that it is within.
pub proof fn law_a_time_is_within_its_step<F: Arith>(m: Memory<F>, at_secs: u64)
    requires
        m.plan.step_secs > 0,
    ensures
        m.step_of(at_secs) * m.plan.step_secs <= at_secs,
        at_secs < (m.step_of(at_secs) + 1) * m.plan.step_secs,
{
    let (t, s) = (at_secs as int, m.plan.step_secs as int);
    let q = t / s;
    assert(0 <= q <= t && q * s <= t && t < (q + 1) * s) by (nonlinear_arith)
        requires
            t >= 0,
            s > 0,
            q == t / s,
    ;
}

/// An observation of a declared signal is one in the step that its time falls into, and
/// closing its step is closing it there. A new store has every signal empty.
pub proof fn law_an_observation_reaches_its_signal<F: Arith>(
    m: Memory<F>,
    name: Seq<char>,
    at_secs: u64,
    obs: Sample<F>,
    i: int,
)
    requires
        m.find(name) == Some(i),
        0 <= i < m.channels.len(),
        m.plan.step_secs > 0,
    ensures
        m.observed(name, at_secs, obs).channels[i] == m.channels[i].observed(
            (at_secs / m.plan.step_secs) as u64,
            obs,
        ),
        m.flushed(name).channels[i] == m.channels[i].flushed(),
        Memory::<F>::empty(m.plan).channels.len() == m.plan.signals.len(),
        forall|j: int|
            0 <= j < m.plan.signals.len() ==> #[trigger] Memory::<F>::empty(m.plan).channels[j]
                == Channel::<F>::empty(m.plan.signals[j]),
{
}

/// A signal is found by its name, the last that was declared under it.
pub proof fn law_a_name_finds_the_last_signal_of_it<F: Arith>(
    m: Memory<F>,
    name: Seq<char>,
    i: int,
)
    requires
        0 <= i < m.plan.signals.len(),
        m.plan.signals[i].name == name,
        forall|j: int| i < j < m.plan.signals.len() ==> (#[trigger] m.plan.signals[j]).name
            != name,
    ensures
        m.find(name) == Some(i),
{
    assert(is_last(m.plan.signals, name, i));
    lemma_last_unique(m, name, i);
}

/// A read at one resolution is answered from an archive whose slots span just that many
/// seconds, where that is granted, and from no other. A refusal names what was asked for,
/// and beside it the resolutions that the signal does offer, or those that are granted.
pub proof fn law_a_read_is_answered_at_the_resolution_asked_for<F: Arith>(
    m: Memory<F>,
    name: Seq<char>,
    resolution_secs: u64,
    grant: Set<u64>,
    refusal: Refusal,
    i: int,
    j: int,
)
    requires
        m.find(name) == Some(i),
    ensures
        m.answered_at(name, resolution_secs, grant, i, j) <==> {
            &&& 0 <= j < m.channels[i].tiers.len()
            &&& m.channels[i].tiers[j].spec.steps_per_slot * m.plan.step_secs == resolution_secs
            &&& grant.contains(resolution_secs)
        },
        m.outlook(i, grant).pane(j).resolution_secs
            == m.channels[i].tiers[j].spec.steps_per_slot * m.plan.step_secs,
        m.refused_at(name, resolution_secs, grant, refusal) ==> match refusal {
            Refusal::NotDeclared { requested, offered } => {
                &&& requested == resolution_secs
                &&& offered@ == m.plan.resolutions_named(name)
                &&& forall|t: int|
                    0 <= t < m.channels[i].tiers.len() ==> (
                    #[trigger] m.channels[i].tiers[t]).spec.steps_per_slot * m.plan.step_secs
                        != resolution_secs
            },
            Refusal::NotGranted { requested, granted } => {
                &&& requested == resolution_secs
                &&& !grant.contains(resolution_secs)
                &&& forall|a: int, b: int|
                    0 <= a < b < granted@.len() ==> granted@[a] < granted@[b]
                &&& forall|r: u64| granted@.contains(r) <==> grant.contains(r)
                &&& exists|t: int|
                    0 <= t < m.channels[i].tiers.len() && (
                    #[trigger] m.channels[i].tiers[t]).spec.steps_per_slot * m.plan.step_secs
                        == resolution_secs
            },
            _ => false,
        },
{
    let o = m.outlook(i, grant);
    assert forall|t: int| 0 <= t < o.tiers.len() implies #[trigger] o.resolution(t)
        == o.tiers[t].spec.steps_per_slot * m.plan.step_secs by {}
    if m.refused_at(name, resolution_secs, grant, refusal) {
        match refusal {
            Refusal::NotDeclared { requested, offered } => {
                assert forall|t: int| 0 <= t < m.channels[i].tiers.len() implies (
                #[trigger] m.channels[i].tiers[t]).spec.steps_per_slot * m.plan.step_secs
                    != resolution_secs by {
                    if o.resolution(t) == resolution_secs {
                        assert(o.offers(resolution_secs as nat));
                    }
                }
            },
            Refusal::NotGranted { requested, granted } => {
                let t = choose|t: int|
                    0 <= t < o.tiers.len() && #[trigger] o.resolution(t) == resolution_secs;
                assert(m.channels[i].tiers[t].spec.steps_per_slot * m.plan.step_secs
                    == resolution_secs);
            },
            _ => {},
        }
    }
}

/// A reader looks at the archives of the signal, in the steps of the declaration and under
/// the grant that is held; and what can be given of all signals can be given of one.
pub proof fn law_a_reader_looks_at_the_archives<F: Arith>(
    m: Memory<F>,
    name: Seq<char>,
    i: int,
    grant: Set<u64>,
)
    ensures
        m.outlook(i, grant).tiers == m.channels[i].tiers,
        m.outlook(i, grant).step_secs == m.plan.step_secs,
        m.outlook(i, grant).grant == grant,
        m.plan.resolvable() ==> m.plan.named_resolvable(name),
{
}

/// A vector that is handed out is the one that was found.
pub proof fn law_a_vector_is_handed_out_as_it_is<R>(v: Vec<R>)
    ensures
        seq_of(Some(v)) == Some(v@),
        seq_of(None::<Vec<R>>) is None,
{
}

/// A name that is not declared is answered with that name, and nothing else is.
pub proof fn law_an_unknown_signal_is_named<F: Arith>(
    m: Memory<F>,
    name: Seq<char>,
    resolution_secs: u64,
    grant: Set<u64>,
    refusal: Refusal,
)
    requires
        m.find(name) is None,
        m.refused_at(name, resolution_secs, grant, refusal),
    ensures
        refusal matches Refusal::UnknownSignal(s) && s@ == name,
{
}

/// A centroid can be asked of a signal of vectors, with and without a codebook, and of no
/// other.
pub proof fn law_signals_of_vectors_have_centroids<F: Arith>(s: SignalPlan<F>)
    ensures
        s.embeds() <==> s.kind is Vector || s.kind is Clusters,
{
}

/// The observations behind all slots of the archives, finished and unfinished.
pub open spec fn held<F: Arith>(tiers: Seq<Tier<F>>) -> nat
    decreases tiers.len(),
{
    if tiers.len() == 0 {
        0
    } else {
        held(tiers.drop_first()) + counts_of(tiers[0].ring.slots) + count_of(tiers[0].pending)
    }
}

proof fn lemma_held_is_laden<F: Arith>(tiers: Seq<Tier<F>>, below: nat)
    requires
        held(tiers) + below <= u64::MAX,
    ensures
        laden(tiers, below),
    decreases tiers.len(),
{
    if tiers.len() > 0 {
        lemma_held_is_laden(tiers.drop_first(), below + count_of(tiers[0].pending));
    }
}

/// As long as one observation more than a signal holds can be counted, and the slots that
/// a gap and a step may write can, every observation that is of its kind and size can be
/// recorded, whatever its value and time.
pub proof fn law_what_can_be_counted_can_be_observed<F: Arith>(
    m: Memory<F>,
    name: Seq<char>,
    at_secs: u64,
    obs: Sample<F>,
    i: int,
)
    requires
        m.find(name) == Some(i),
        m.channels[i].plan.absorbs(obs),
        held(m.channels[i].tiers) + count_of(m.channels[i].acc) + 1 <= u64::MAX,
        forall|t: int|
            0 <= t < m.channels[i].tiers.len() ==> (
            #[trigger] m.channels[i].tiers[t]).ring.written + m.channels[i].plan.retention() + 1
                <= u64::MAX,
    ensures
        m.can_observe(name, at_secs, obs),
        m.can_flush(name),
{
    let c = m.channels[i];
    let step = m.step_of(at_secs);
    lemma_held_is_laden(c.tiers, count_of(c.acc) + 1);
    lemma_retention(c.plan);
    assert(c.gap(step) <= c.plan.retention());
    assert forall|t: int| 0 <= t < c.tiers.len() implies (#[trigger] c.tiers[t]).ring.written + (
    c.gap(step) + 1) <= u64::MAX by {
        assert(c.tiers[t].ring.written + c.plan.retention() + 1 <= u64::MAX);
    }
    assert forall|t: int| 0 <= t < c.tiers.len() implies (#[trigger] c.tiers[t]).ring.written + 1
        <= u64::MAX by {
        assert(c.tiers[t].ring.written + c.plan.retention() + 1 <= u64::MAX);
    }
}

/// A signal that is not declared, and one whose step in progress is later, take any call:
/// the one refuses it and the other passes it over.
pub proof fn law_what_is_not_recorded_can_be_observed<F: Arith>(
    m: Memory<F>,
    name: Seq<char>,
    at_secs: u64,
    obs: Sample<F>,
)
    ensures
        m.find(name) is None ==> m.can_observe(name, at_secs, obs) && m.can_flush(name),
        m.find(name) matches Some(i) && (m.channels[i].step matches Some(cur) && m.step_of(
            at_secs,
        ) < cur) ==> m.can_observe(name, at_secs, obs),
{
}

/// A signal can be read where its resolutions, and the spans of the granted ones, can be
/// given in seconds.
pub proof fn law_what_can_be_given_can_be_read<F: Arith>(
    m: Memory<F>,
    name: Seq<char>,
    grant: Set<u64>,
    i: int,
)
    requires
        m.find(name) == Some(i),
        forall|j: int|
            0 <= j < m.channels[i].tiers.len() ==> {
                let t = #[trigger] m.channels[i].tiers[j];
                &&& t.spec.steps_per_slot * m.plan.step_secs <= u64::MAX
                &&& (t.spec.steps_per_slot * m.plan.step_secs) * t.ring.slots.len() <= u64::MAX
            },
    ensures
        m.can_read(name, grant),
        m.plan.named_resolvable(name) ==> forall|r: u64| m.can_read_at(name, r, grant),
{
    let o = m.outlook(i, grant);
    assert forall|j: int| 0 <= j < o.tiers.len() implies {
        &&& #[trigger] o.resolution(j) <= u64::MAX
        &&& o.resolution(j) * o.tiers[j].ring.slots.len() <= u64::MAX
    } by {
        assert(m.channels[i].tiers[j].spec.steps_per_slot * m.plan.step_secs <= u64::MAX);
    }
}

/// The slots of the first `upto` archives.
pub open spec fn slots_upto<F>(s: SignalPlan<F>, upto: nat) -> nat
    decreases upto,
{
    if upto == 0 {
        0
    } else {
        slots_upto(s, (upto - 1) as nat) + s.archives[upto - 1].slots as nat
    }
}

/// A signal takes its slots, over all archives, times the size of a slot.
pub proof fn law_bytes_are_slots_times_size<F: Arith>(s: SignalPlan<F>)
    ensures
        s.bytes() == slots_upto(s, s.archives.len()) * s.slot_size(),
{
    lemma_bytes(s, s.archives.len());
}

proof fn lemma_bytes<F: Arith>(s: SignalPlan<F>, upto: nat)
    ensures
        s.bytes_upto(upto) == slots_upto(s, upto) * s.slot_size(),
    decreases upto,
{
    let z = s.slot_size();
    if upto == 0 {
        assert(0 * z == 0) by (nonlinear_arith);
    } else {
        lemma_bytes(s, (upto - 1) as nat);
        let (a, b) = (slots_upto(s, (upto - 1) as nat), s.archives[upto - 1].slots as nat);
        assert((a + b) * z == a * z + b * z) by (nonlinear_arith);
    }
}

/// The footprint is the header, and the bytes of every signal: a declaration without
/// signals takes the header, and one more signal adds its bytes.
pub proof fn law_footprint_is_the_header_and_the_signals<F: Arith>(
    plan: Plan<F>,
    more: SignalPlan<F>,
)
    ensures
        (Plan { signals: Seq::empty(), ..plan }).footprint() == HEADER_BYTES,
        (Plan { signals: plan.signals.push(more), ..plan }).footprint() == plan.footprint()
            + more.bytes(),
{
    let bigger = Plan { signals: plan.signals.push(more), ..plan };
    lemma_bytes_prefix(plan, bigger, plan.signals.len());
}

proof fn lemma_bytes_prefix<F: Arith>(a: Plan<F>, b: Plan<F>, upto: nat)
    requires
        upto <= a.signals.len(),
        a.signals.len() <= b.signals.len(),
        forall|i: int| 0 <= i < a.signals.len() ==> (#[trigger] b.signals[i]) == a.signals[i],
    ensures
        a.bytes_upto(upto) == b.bytes_upto(upto),
    decreases upto,
{
    if upto > 0 {
        lemma_bytes_prefix(a, b, (upto - 1) as nat);
        assert(b.signals[upto - 1] == a.signals[upto - 1]);
    }
}

} // verus!
