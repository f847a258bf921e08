//! Which declarations can be honoured, what is wrong with the others, what they offer and
//! what they cost.

use vstd::prelude::*;

use crate::arith::Arith;
use crate::decl::{
    is_first, lemma_plan_valid, lemma_signal_valid, DeclError, Declaration, Fault, Plan,
    SignalPlan, SignalSpec, HEADER_BYTES,
};
use crate::exact::Exact;
use crate::grant::lists;
use crate::kind::{slot_size, Quant, SlotKind};

verus! {

/// Whether the `i`th archive has slots, which span steps.
pub open spec fn archive_holds<F>(s: SignalPlan<F>, i: int) -> bool {
    s.archives[i].steps_per_slot > 0 && s.archives[i].slots > 0
}

/// Whether the `i`th archive tolerates a share between nothing and all.
pub open spec fn archive_tolerates<F: Arith>(s: SignalPlan<F>, i: int) -> bool {
    F::of_nat(0).le(s.archives[i].xff) && s.archives[i].xff.le(F::of_nat(1))
}

/// Whether the slots of the `i`th archive are made of two or more whole slots of the one
/// below, if there is one.
pub open spec fn archive_coarsens<F>(s: SignalPlan<F>, i: int) -> bool {
    i > 0 ==> s.archives[i].steps_per_slot > s.archives[i - 1].steps_per_slot
        && s.archives[i].steps_per_slot % s.archives[i - 1].steps_per_slot == 0
}

/// Whether a signal has an archive, and the size that its kind needs.
pub open spec fn has_its_size<F>(s: SignalPlan<F>) -> bool {
    &&& s.archives.len() > 0
    &&& s.kind is Categorical ==> s.classes > 0
    &&& s.kind is Vector || s.kind is Clusters ==> s.dim > 0
    &&& s.kind is Clusters ==> s.k > 0
}

/// Whether nothing is wrong with the archives below the `i`th.
pub open spec fn sound_below<F: Arith>(s: SignalPlan<F>, i: int) -> bool {
    forall|j: int|
        0 <= j < i ==> #[trigger] archive_holds(s, j) && archive_tolerates(s, j)
            && archive_coarsens(s, j)
}

/// A signal can be kept exactly where it has an archive and the size that its kind needs,
/// and all its archives have slots, tolerate a share, and coarsen by whole multiples.
pub proof fn law_a_signal_is_sound_where_nothing_is_wrong<F: Arith>(s: SignalPlan<F>)
    ensures
        s.valid() <==> has_its_size(s) && sound_below(s, s.archives.len() as int),
        s.fault() is None <==> has_its_size(s) && sound_below(s, s.archives.len() as int),
{
    lemma_signal_valid(s);
    if s.valid() {
        assert forall|j: int| 0 <= j < s.archives.len() implies #[trigger] archive_holds(s, j)
            && archive_tolerates(s, j) && archive_coarsens(s, j) by {
            assert(s.archives[j].steps_per_slot > 0);
        }
    }
    if has_its_size(s) && sound_below(s, s.archives.len() as int) {
        assert forall|i: int| 0 <= i < s.archives.len() implies {
            &&& (#[trigger] s.archives[i]).steps_per_slot > 0
            &&& s.archives[i].slots > 0
            &&& F::of_nat(0).le(s.archives[i].xff)
            &&& s.archives[i].xff.le(F::of_nat(1))
        } by {
            assert(archive_holds(s, i));
        }
        assert forall|i: int| 0 < i < s.archives.len() implies {
            &&& s.archives[i - 1].steps_per_slot < (#[trigger] s.archives[i]).steps_per_slot
            &&& s.archives[i].steps_per_slot % s.archives[i - 1].steps_per_slot == 0
        } by {
            assert(archive_holds(s, i));
        }
    }
}

proof fn lemma_sound_ladder<F: Arith>(s: SignalPlan<F>, upto: nat)
    requires
        upto <= s.archives.len(),
        sound_below(s, upto as int),
    ensures
        s.ladder_fault(upto) is None,
    decreases upto,
{
    if upto > 0 {
        lemma_sound_ladder(s, (upto - 1) as nat);
        assert(archive_holds(s, upto - 1));
    }
}

proof fn lemma_first_fault<F: Arith>(s: SignalPlan<F>, i: nat, upto: nat)
    requires
        i < upto <= s.archives.len(),
        sound_below(s, i as int),
        s.archive_fault(i as int) is Some,
    ensures
        s.ladder_fault(upto) == s.archive_fault(i as int),
    decreases upto,
{
    if upto == i + 1 {
        lemma_sound_ladder(s, i);
    } else {
        lemma_first_fault(s, i, (upto - 1) as nat);
    }
}

/// What is wrong with a signal is told by name: first that it has no archive, then that it
/// lacks what its kind needs, and then what is wrong with its first faulty archive.
pub proof fn law_the_first_fault_of_a_signal_is_told<F: Arith>(s: SignalPlan<F>, i: int)
    ensures
        s.archives.len() == 0 ==> s.fault() == Some(Fault::NoArchives(s.name)),
        s.archives.len() > 0 ==> {
            &&& s.kind is Categorical && s.classes == 0 ==> s.fault() == Some(
                Fault::NoClasses(s.name),
            )
            &&& (s.kind is Vector || s.kind is Clusters) && s.dim == 0 ==> s.fault() == Some(
                Fault::NoDim(s.name),
            )
            &&& s.kind is Clusters && s.dim > 0 && s.k == 0 ==> s.fault() == Some(
                Fault::NoCodebook(s.name),
            )
        },
        has_its_size(s) && 0 <= i < s.archives.len() && sound_below(s, i) ==> {
            &&& !archive_holds(s, i) ==> s.fault() == Some(Fault::EmptyArchive(s.name))
            &&& archive_holds(s, i) && !archive_tolerates(s, i) ==> s.fault() == Some(
                Fault::BadXff(s.name),
            )
            &&& archive_holds(s, i) && archive_tolerates(s, i) && !archive_coarsens(s, i)
                ==> s.fault() == Some(
                Fault::NotALadder {
                    signal: s.name,
                    finer: s.archives[i - 1].steps_per_slot,
                    coarser: s.archives[i].steps_per_slot,
                },
            )
        },
{
    if has_its_size(s) && 0 <= i < s.archives.len() && sound_below(s, i) {
        if !(archive_holds(s, i) && archive_tolerates(s, i) && archive_coarsens(s, i)) {
            lemma_first_fault(s, i as nat, s.archives.len());
        }
    }
}

/// In exact arithmetic a share can be tolerated from zero to one, both included.
pub proof fn law_a_tolerance_is_from_zero_to_one(s: SignalPlan<Exact>, i: int, x: real)
    requires
        s.archives[i].xff == Exact::Finite(x),
    ensures
        archive_tolerates(s, i) <==> 0real <= x <= 1real,
{
}

/// A declaration can be honoured exactly where it has a step and all its signals are sound.
/// What is wrong with it is that it has no step, and otherwise what is wrong with its
/// first faulty signal.
pub proof fn law_the_first_fault_of_a_declaration_is_told<F: Arith>(p: Plan<F>, i: int)
    ensures
        p.step_secs == 0 ==> p.fault() == Some(Fault::ZeroStep),
        p.valid() <==> p.step_secs > 0 && forall|j: int|
            0 <= j < p.signals.len() ==> (#[trigger] p.signals[j]).valid(),
        p.valid() <==> p.fault() is None,
        p.step_secs > 0 && 0 <= i < p.signals.len() && p.signals[i].fault() is Some && (forall|
            j: int,
        |
            0 <= j < i ==> (#[trigger] p.signals[j]).fault() is None) ==> p.fault()
            == p.signals[i].fault(),
{
    lemma_plan_valid(p);
    if p.step_secs > 0 && 0 <= i < p.signals.len() && p.signals[i].fault() is Some && (forall|
        j: int,
    |
        0 <= j < i ==> (#[trigger] p.signals[j]).fault() is None) {
        lemma_first_signal(p, i as nat, p.signals.len());
    }
}

proof fn lemma_first_signal<F: Arith>(p: Plan<F>, i: nat, upto: nat)
    requires
        i <= upto <= p.signals.len(),
        forall|j: int| 0 <= j < i ==> (#[trigger] p.signals[j]).fault() is None,
        i < p.signals.len() && p.signals[i as int].fault() is Some,
    ensures
        upto == i ==> p.signals_fault(upto) is None,
        upto > i ==> p.signals_fault(upto) == p.signals[i as int].fault(),
    decreases upto,
{
    if upto > i {
        lemma_first_signal(p, i, (upto - 1) as nat);
    } else if upto > 0 {
        lemma_sound_signals(p, upto);
    }
}

proof fn lemma_sound_signals<F: Arith>(p: Plan<F>, upto: nat)
    requires
        upto <= p.signals.len(),
        forall|j: int| 0 <= j < upto ==> (#[trigger] p.signals[j]).fault() is None,
    ensures
        p.signals_fault(upto) is None,
    decreases upto,
{
    if upto > 0 {
        lemma_sound_signals(p, (upto - 1) as nat);
        assert(p.signals[upto - 1].fault() is None);
    }
}

/// A resolution is the seconds that a slot of an archive spans. A declaration offers those
/// of all its signals, and a signal those of its archives, in their order.
pub proof fn law_resolutions_are_the_spans_of_slots<F: Arith>(
    p: Plan<F>,
    name: Seq<char>,
    r: u64,
    i: int,
)
    requires
        p.resolvable(),
    ensures
        p.offers(r) <==> exists|s: int, a: int|
            0 <= s < p.signals.len() && 0 <= a < p.signals[s].archives.len() && (
            #[trigger] p.signals[s].archives[a]).steps_per_slot * p.step_secs == r,
        0 <= i < p.signals.len() && p.signals[i].name == name && (forall|j: int|
            0 <= j < i ==> (#[trigger] p.signals[j]).name != name) ==> {
            &&& p.resolutions_named(name).len() == p.signals[i].archives.len()
            &&& forall|a: int|
                0 <= a < p.signals[i].archives.len() ==> #[trigger] p.resolutions_named(name)[a]
                    == p.signals[i].archives[a].steps_per_slot * p.step_secs
        },
        (forall|j: int| 0 <= j < p.signals.len() ==> (#[trigger] p.signals[j]).name != name)
            ==> p.resolutions_named(name).len() == 0,
{
    if p.offers(r) {
        let s = choose|s: int|
            0 <= s < p.signals.len() && #[trigger] p.resolutions_in(p.signals[s]).contains(r);
        let all = p.resolutions_in(p.signals[s]);
        let a = choose|a: int| 0 <= a < all.len() && all[a] == r;
        assert(p.signal_resolvable(p.signals[s]));
        assert(p.resolution(p.signals[s].archives[a]) <= u64::MAX);
        lemma_span_positive(p.signals[s].archives[a].steps_per_slot, p.step_secs);
        assert(p.signals[s].archives[a].steps_per_slot * p.step_secs == r);
    }
    if exists|s: int, a: int|
        0 <= s < p.signals.len() && 0 <= a < p.signals[s].archives.len() && (
        #[trigger] p.signals[s].archives[a]).steps_per_slot * p.step_secs == r {
        let (s, a) = choose|s: int, a: int|
            0 <= s < p.signals.len() && 0 <= a < p.signals[s].archives.len() && (
            #[trigger] p.signals[s].archives[a]).steps_per_slot * p.step_secs == r;
        assert(p.resolutions_in(p.signals[s])[a] == r);
        assert(p.resolutions_in(p.signals[s]).contains(r));
    }
    if 0 <= i < p.signals.len() && p.signals[i].name == name && (forall|j: int|
        0 <= j < i ==> (#[trigger] p.signals[j]).name != name) {
        assert(is_first(p.signals, name, i));
        let c = choose|c: int| is_first(p.signals, name, c);
        assert(is_first(p.signals, name, c));
        if c < i {
            assert(p.signals[c].name != name);
        } else if i < c {
            assert(p.signals[i].name != name);
        }
        assert(p.signal_resolvable(p.signals[i]));
        assert forall|a: int| 0 <= a < p.signals[i].archives.len() implies #[trigger]
            p.resolutions_named(name)[a] == p.signals[i].archives[a].steps_per_slot
            * p.step_secs by {
            assert(p.resolution(p.signals[i].archives[a]) <= u64::MAX);
            lemma_span_positive(p.signals[i].archives[a].steps_per_slot, p.step_secs);
        }
    }
}

proof fn lemma_span_positive(steps: u32, secs: u64)
    ensures
        steps * secs >= 0,
{
    assert(steps * secs >= 0) by (nonlinear_arith)
        requires
            steps >= 0,
            secs >= 0,
    ;
}

/// The resolutions of a declaration can be given where each slot spans no more seconds than
/// can be counted.
pub proof fn law_resolutions_can_be_given_where_they_can_be_counted<F: Arith>(p: Plan<F>)
    ensures
        p.resolvable() <==> forall|s: int, a: int|
            0 <= s < p.signals.len() && 0 <= a < p.signals[s].archives.len() ==> (
            #[trigger] p.signals[s].archives[a]).steps_per_slot * p.step_secs <= u64::MAX,
{
    if p.resolvable() {
        assert forall|s: int, a: int|
            0 <= s < p.signals.len() && 0 <= a < p.signals[s].archives.len() implies (
        #[trigger] p.signals[s].archives[a]).steps_per_slot * p.step_secs <= u64::MAX by {
            assert(p.signal_resolvable(p.signals[s]));
            assert(p.resolution(p.signals[s].archives[a]) <= u64::MAX);
        }
    }
}

/// A declaration is of what it was made with.
pub proof fn law_a_declaration_holds_what_it_says<R>(d: Declaration<R>, s: SignalSpec<R>, i: int)
    requires
        0 <= i < d.signals@.len(),
    ensures
        d@.step_secs == d.step_secs,
        d@.signals.len() == d.signals@.len(),
        d@.signals[i] == d.signals@[i]@,
        s@.name == s.name@,
        s@.kind == s.kind,
        s@.classes == s.classes,
        s@.dim == s.dim,
        s@.k == s.k,
        s@.quant == s.quant,
        s@.archives == s.archives@,
{
}

/// An error says what fault it is of, and of which signal.
pub proof fn law_an_error_tells_its_fault(e: DeclError)
    ensures
        match e {
            DeclError::ZeroStep => e@ == Fault::ZeroStep,
            DeclError::NoArchives(s) => e@ == Fault::NoArchives(s@),
            DeclError::NoClasses(s) => e@ == Fault::NoClasses(s@),
            DeclError::NoDim(s) => e@ == Fault::NoDim(s@),
            DeclError::NoCodebook(s) => e@ == Fault::NoCodebook(s@),
            DeclError::EmptyArchive(s) => e@ == Fault::EmptyArchive(s@),
            DeclError::BadXff(s) => e@ == Fault::BadXff(s@),
            DeclError::NotALadder { signal, finer, coarser } => e@ == (Fault::NotALadder {
                signal: signal@,
                finer,
                coarser,
            }),
        },
{
}

/// What is listed of a set is its members, each once and ascending.
pub proof fn law_a_list_of_a_set_ascends(s: Seq<u64>, set: Set<u64>)
    ensures
        lists(s, set) <==> {
            &&& forall|i: int, j: int| 0 <= i < j < s.len() ==> s[i] < s[j]
            &&& forall|r: u64| s.contains(r) <==> set.contains(r)
        },
{
}

/// A scalar slot takes forty bytes, a categorical one eight for each class, a vector one
/// sixteen and its components, of four, two or one bytes each, and one with a codebook
/// that for each centroid that it may hold.
pub proof fn law_slots_take_what_their_kind_needs(
    dim: nat,
    classes: nat,
    quant: Quant,
    k: nat,
)
    ensures
        ({
            let width: nat = match quant {
                Quant::F32 => 4,
                Quant::F16 => 2,
                Quant::Int8 => 1,
            };
            &&& quant.width() == width
            &&& slot_size(SlotKind::Scalar, dim, classes, quant, k) == 8 + 4 * 8
            &&& slot_size(SlotKind::Categorical, dim, classes, quant, k) == classes * 8
            &&& slot_size(SlotKind::Vector, dim, classes, quant, k) == 8 + 8 + dim * width
            &&& slot_size(SlotKind::Clusters, dim, classes, quant, k) == k * (8 + 8 + dim
                * width)
        }),
{
}

/// A declaration takes a header of 512 bytes, and for every archive its slots times the
/// bytes of one: one more signal adds those of its archives, and one more archive adds its
/// own.
pub proof fn law_the_footprint_is_of_all_slots<F: Arith>(p: Plan<F>, s: SignalPlan<F>, i: nat)
    requires
        i < s.archives.len(),
    ensures
        HEADER_BYTES == 512,
        p.signals.len() == 0 ==> p.footprint() == 512,
        s.bytes_upto(0) == 0,
        s.bytes_upto(i + 1) == s.bytes_upto(i) + s.archives[i as int].slots as nat * slot_size(
            s.kind,
            s.dim,
            s.classes,
            s.quant,
            s.k,
        ),
        s.bytes() == s.bytes_upto(s.archives.len()),
        p.measurable() <==> p.footprint() <= usize::MAX && forall|t: int|
            0 <= t < p.signals.len() ==> (#[trigger] p.signals[t]).slot_measurable(),
        s.slot_measurable() <==> {
            &&& slot_size(s.kind, s.dim, s.classes, s.quant, s.k) <= usize::MAX
            &&& s.kind is Clusters ==> 16 + s.dim * s.quant.width() <= usize::MAX
        },
{
}

} // verus!
