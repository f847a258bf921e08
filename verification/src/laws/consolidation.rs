//! Exact consolidation: a slot anywhere up the ladder is the summary of the
//! observations beneath it.
//!
//! The laws are of scalar, categorical and vector signals in exact arithmetic. A
//! codebook is bounded and therefore lossy; what holds of it is in
//! [`crate::laws::clusters`].

use vstd::prelude::*;

use crate::arith::Arith;
use crate::channel::{Channel, Sample};
use crate::decl::SignalPlan;
use crate::exact::Exact;
use crate::kind::SlotKind;
use crate::ladder::Tier;
use crate::laws::classes::{all_declared, tallied};
use crate::laws::ladders::{
    at_boundary, closed_by, fed_all, law_closed_slots_feed_the_archive_above,
    law_ring_holds_the_closed_slots, law_slots_are_the_runs, lemma_run_bounds,
    lemma_units_span, ran, run_of,
};
use crate::laws::rings::{last_of, law_ring_holds_the_last};
use crate::laws::scalars::pushed;
use crate::laws::vectors::{all_of_dim, gathered, lifted};
use crate::ring::{absent, exceeds, folded};
use crate::slot::Summary;

verus! {

/// The slot that the observations were recorded in, one after the other.
pub open spec fn summarised<F: Arith>(plan: SignalPlan<F>, seen: Seq<Sample<F>>) -> Summary<F>
    decreases seen.len(),
{
    if seen.len() == 0 {
        plan.blank()
    } else {
        summarised(plan, seen.drop_last()).with(seen.last())
    }
}

/// The same, absent where nothing was observed.
pub open spec fn remembered<F: Arith>(plan: SignalPlan<F>, seen: Seq<Sample<F>>) -> Option<
    Summary<F>,
> {
    if seen.len() == 0 {
        None
    } else {
        Some(summarised(plan, seen))
    }
}

/// One slot for each group of observations.
pub open spec fn each_remembered<F: Arith>(
    plan: SignalPlan<F>,
    groups: Seq<Seq<Sample<F>>>,
) -> Seq<Option<Summary<F>>> {
    Seq::new(groups.len(), |i: int| remembered(plan, groups[i]))
}

/// Whether an observation is made of real numbers.
pub open spec fn is_real(obs: Sample<Exact>) -> bool {
    match obs {
        Sample::Scalar(x) => x is Finite,
        Sample::Class(_) => true,
        Sample::Vector(v) => forall|i: int| 0 <= i < v.len() ==> (#[trigger] v[i]) is Finite,
    }
}

/// Whether the signal takes every one of the observations, and they are made of real
/// numbers.
pub open spec fn all_taken(plan: SignalPlan<Exact>, seen: Seq<Sample<Exact>>) -> bool {
    forall|i: int|
        0 <= i < seen.len() ==> plan.takes(#[trigger] seen[i]) && is_real(seen[i])
}

/// Whether slots of the signal merge without loss.
pub open spec fn merges_exactly<F>(plan: SignalPlan<F>) -> bool {
    plan.kind is Scalar || plan.kind is Categorical || plan.kind is Vector
}

/// The numbers that were observed.
pub open spec fn scalars_of(seen: Seq<Sample<Exact>>) -> Seq<real> {
    Seq::new(seen.len(), |i: int| seen[i]->Scalar_0->Finite_0)
}

/// The classes that were observed.
pub open spec fn classes_of(seen: Seq<Sample<Exact>>) -> Seq<int> {
    Seq::new(seen.len(), |i: int| seen[i]->Class_0 as int)
}

/// A vector of real numbers.
pub open spec fn reals_of(v: Seq<Exact>) -> Seq<real> {
    Seq::new(v.len(), |i: int| v[i]->Finite_0)
}

/// The vectors that were observed.
pub open spec fn vectors_of(seen: Seq<Sample<Exact>>) -> Seq<Seq<real>> {
    Seq::new(seen.len(), |i: int| reals_of(seen[i]->Vector_0))
}

proof fn lemma_taken_before(plan: SignalPlan<Exact>, seen: Seq<Sample<Exact>>)
    requires
        all_taken(plan, seen),
        seen.len() > 0,
    ensures
        all_taken(plan, seen.drop_last()),
        plan.takes(seen.last()),
        is_real(seen.last()),
{
    let before = seen.drop_last();
    assert forall|i: int| 0 <= i < before.len() implies plan.takes(#[trigger] before[i]) && is_real(
        before[i],
    ) by {
        assert(before[i] == seen[i]);
    }
    assert(plan.takes(seen[seen.len() - 1]));
}

proof fn lemma_taken_concat(
    plan: SignalPlan<Exact>,
    a: Seq<Sample<Exact>>,
    b: Seq<Sample<Exact>>,
)
    requires
        all_taken(plan, a),
        all_taken(plan, b),
    ensures
        all_taken(plan, a + b),
{
    let all = a + b;
    assert forall|i: int| 0 <= i < all.len() implies plan.takes(#[trigger] all[i]) && is_real(
        all[i],
    ) by {
        if i < a.len() {
            assert(all[i] == a[i]);
        } else {
            assert(all[i] == b[i - a.len()]);
        }
    }
}

pub(crate) proof fn lemma_scalars(plan: SignalPlan<Exact>, seen: Seq<Sample<Exact>>)
    requires
        plan.kind is Scalar,
        all_taken(plan, seen),
    ensures
        summarised(plan, seen) == Summary::Scalar(pushed(scalars_of(seen))),
    decreases seen.len(),
{
    if seen.len() > 0 {
        lemma_taken_before(plan, seen);
        lemma_scalars(plan, seen.drop_last());
        assert(scalars_of(seen).drop_last() =~= scalars_of(seen.drop_last()));
    }
}

pub(crate) proof fn lemma_classes(plan: SignalPlan<Exact>, seen: Seq<Sample<Exact>>)
    requires
        plan.kind is Categorical,
        all_taken(plan, seen),
    ensures
        summarised(plan, seen) == Summary::<Exact>::Categorical(
            tallied(plan.classes, classes_of(seen)),
        ),
        all_declared(plan.classes, classes_of(seen)),
    decreases seen.len(),
{
    if seen.len() > 0 {
        lemma_taken_before(plan, seen);
        lemma_classes(plan, seen.drop_last());
        assert(classes_of(seen).drop_last() =~= classes_of(seen.drop_last()));
        assert forall|i: int| 0 <= i < seen.len() implies 0 <= #[trigger] classes_of(seen)[i]
            < plan.classes by {
            assert(plan.takes(seen[i]));
        }
    }
}

pub(crate) proof fn lemma_vectors(plan: SignalPlan<Exact>, seen: Seq<Sample<Exact>>)
    requires
        plan.kind is Vector,
        all_taken(plan, seen),
    ensures
        summarised(plan, seen) == Summary::Vector(gathered(vectors_of(seen), plan.dim)),
        all_of_dim(vectors_of(seen), plan.dim),
    decreases seen.len(),
{
    if seen.len() > 0 {
        lemma_taken_before(plan, seen);
        lemma_vectors(plan, seen.drop_last());
        assert(vectors_of(seen).drop_last() =~= vectors_of(seen.drop_last()));
        let v = seen.last()->Vector_0;
        assert(lifted(reals_of(v)) =~= v);
        assert forall|i: int| 0 <= i < seen.len() implies (
        #[trigger] vectors_of(seen)[i]).len() == plan.dim by {
            assert(plan.takes(seen[i]));
        }
    }
}

/// Merging two slots gives the slot that the observations of both were recorded in.
pub proof fn law_merge_remembers_both(
    plan: SignalPlan<Exact>,
    a: Seq<Sample<Exact>>,
    b: Seq<Sample<Exact>>,
)
    requires
        merges_exactly(plan),
        all_taken(plan, a),
        all_taken(plan, b),
        a.len() + b.len() <= u64::MAX,
    ensures
        summarised(plan, a).joined(summarised(plan, b)) == summarised(plan, a + b),
{
    lemma_taken_concat(plan, a, b);
    match plan.kind {
        SlotKind::Scalar => {
            lemma_scalars(plan, a);
            lemma_scalars(plan, b);
            lemma_scalars(plan, a + b);
            assert(scalars_of(a + b) =~= scalars_of(a) + scalars_of(b));
            crate::laws::scalars::law_merge_matches_single_pass(scalars_of(a), scalars_of(b));
        },
        SlotKind::Categorical => {
            lemma_classes(plan, a);
            lemma_classes(plan, b);
            lemma_classes(plan, a + b);
            assert(classes_of(a + b) =~= classes_of(a) + classes_of(b));
            crate::laws::classes::law_merge_matches_single_pass(
                plan.classes,
                classes_of(a),
                classes_of(b),
            );
        },
        SlotKind::Vector => {
            lemma_vectors(plan, a);
            lemma_vectors(plan, b);
            lemma_vectors(plan, a + b);
            assert(vectors_of(a + b) =~= vectors_of(a) + vectors_of(b));
            crate::laws::vectors::law_merge_matches_single_pass(
                vectors_of(a),
                vectors_of(b),
                plan.dim,
            );
        },
        SlotKind::Clusters => {},
    }
}

/// Slots merge associatively, which is what makes consolidation a parallel reduce.
pub proof fn law_merge_is_associative(
    plan: SignalPlan<Exact>,
    a: Seq<Sample<Exact>>,
    b: Seq<Sample<Exact>>,
    c: Seq<Sample<Exact>>,
)
    requires
        merges_exactly(plan),
        all_taken(plan, a),
        all_taken(plan, b),
        all_taken(plan, c),
        a.len() + b.len() + c.len() <= u64::MAX,
    ensures
        summarised(plan, a).joined(summarised(plan, b)).joined(summarised(plan, c))
            == summarised(plan, a).joined(summarised(plan, b).joined(summarised(plan, c))),
{
    lemma_taken_concat(plan, a, b);
    lemma_taken_concat(plan, b, c);
    law_merge_remembers_both(plan, a, b);
    law_merge_remembers_both(plan, a + b, c);
    law_merge_remembers_both(plan, b, c);
    law_merge_remembers_both(plan, a, b + c);
    assert((a + b) + c =~= a + (b + c));
}

/// The groups, one after the other.
pub open spec fn together<T>(groups: Seq<Seq<T>>) -> Seq<T>
    decreases groups.len(),
{
    if groups.len() == 0 {
        Seq::empty()
    } else {
        together(groups.drop_last()) + groups.last()
    }
}

proof fn lemma_together_concat<T>(a: Seq<Seq<T>>, b: Seq<Seq<T>>)
    ensures
        together(a + b) == together(a) + together(b),
    decreases b.len(),
{
    if b.len() == 0 {
        assert(a + b =~= a);
        assert(together(a) + Seq::<T>::empty() =~= together(a));
    } else {
        lemma_together_concat(a, b.drop_last());
        assert((a + b).drop_last() =~= a + b.drop_last());
        let (x, y) = (together(a), together(b.drop_last()));
        assert((x + y) + b.last() =~= x + (y + b.last()));
    }
}

/// Slots fold to the slot that all their observations were recorded in. Steps without
/// an observation change nothing.
pub proof fn law_fold_remembers_all(plan: SignalPlan<Exact>, groups: Seq<Seq<Sample<Exact>>>)
    requires
        merges_exactly(plan),
        all_taken(plan, together(groups)),
        together(groups).len() <= u64::MAX,
    ensures
        folded(each_remembered(plan, groups)) == remembered(plan, together(groups)),
    decreases groups.len(),
{
    let slots = each_remembered(plan, groups);
    if groups.len() > 0 {
        let before = groups.drop_last();
        let (a, b) = (together(before), groups.last());
        assert forall|i: int| 0 <= i < a.len() implies plan.takes(#[trigger] a[i]) && is_real(
            a[i],
        ) by {
            assert(a[i] == together(groups)[i]);
        }
        assert forall|i: int| 0 <= i < b.len() implies plan.takes(#[trigger] b[i]) && is_real(
            b[i],
        ) by {
            assert(b[i] == together(groups)[a.len() + i]);
        }
        law_fold_remembers_all(plan, before);
        assert(slots.drop_last() =~= each_remembered(plan, before));
        law_merge_remembers_both(plan, a, b);
        if a.len() == 0 {
            assert(a + b =~= b);
        } else if b.len() == 0 {
            assert(a + b =~= a);
        }
    }
}

/// The groups, joined in runs of `n`.
pub open spec fn spans<T>(groups: Seq<Seq<T>>, n: nat) -> Seq<Seq<T>> {
    Seq::new(groups.len() / n, |j: int| together(run_of(groups, n, j)))
}

/// Whether every group has an observation.
pub open spec fn all_known<T>(groups: Seq<Seq<T>>) -> bool {
    forall|i: int| 0 <= i < groups.len() ==> (#[trigger] groups[i]).len() > 0
}

proof fn lemma_blocks(len: nat, n: nat)
    requires
        n > 0,
    ensures
        (len / n) * n <= len < (len / n) * n + n,
{
    assert((len / n) * n <= len < (len / n) * n + n) by (nonlinear_arith)
        requires
            n > 0,
    ;
}

proof fn lemma_run_within(len: nat, n: nat, j: int)
    requires
        n > 0,
        0 <= j < len / n,
    ensures
        0 <= j * n,
        j * n + n == (j + 1) * n,
        (j + 1) * n <= len,
{
    lemma_blocks(len, n);
    lemma_run_bounds((len / n) * n, n, len / n, j);
}

proof fn lemma_known_together<T>(groups: Seq<Seq<T>>)
    requires
        groups.len() > 0,
        all_known(groups),
    ensures
        together(groups).len() > 0,
{
    assert(groups[groups.len() - 1].len() > 0);
}

proof fn lemma_spans_known<T>(groups: Seq<Seq<T>>, n: nat)
    requires
        n > 0,
        all_known(groups),
    ensures
        all_known(spans(groups, n)),
{
    assert forall|j: int| 0 <= j < spans(groups, n).len() implies (
    #[trigger] spans(groups, n)[j]).len() > 0 by {
        lemma_run_within(groups.len(), n, j);
        let run = run_of(groups, n, j);
        assert forall|i: int| 0 <= i < run.len() implies (#[trigger] run[i]).len() > 0 by {
            assert(run[i] == groups[j * n + i]);
        }
        lemma_known_together(run);
    }
}

/// Joining whole runs keeps the order of what is in them.
proof fn lemma_together_spans<T>(groups: Seq<Seq<T>>, n: nat, blocks: nat)
    requires
        n > 0,
        groups.len() == blocks * n,
    ensures
        spans(groups, n).len() == blocks,
        together(spans(groups, n)) == together(groups),
    decreases blocks,
{
    assert(groups.len() / n == blocks) by (nonlinear_arith)
        requires
            n > 0,
            groups.len() == blocks * n,
    ;
    if blocks == 0 {
        assert(0 * n == 0) by (nonlinear_arith);
        assert(spans(groups, n) =~= Seq::empty());
    } else {
        let less = (blocks - 1) as nat;
        lemma_run_bounds(groups.len(), n, blocks, less as int);
        let cut = (less * n) as int;
        let (head, tail) = (groups.take(cut), groups.skip(cut));
        assert(head + tail =~= groups);
        lemma_together_concat(head, tail);
        lemma_together_spans(head, n, less);
        assert(tail =~= run_of(groups, n, less as int));
        assert forall|j: int| 0 <= j < less implies spans(head, n)[j] == spans(groups, n)[j] by {
            lemma_run_bounds(head.len(), n, less, j);
            assert(run_of(head, n, j) =~= run_of(groups, n, j));
        }
        assert(spans(groups, n).drop_last() =~= spans(head, n));
    }
}

/// Runs of runs are runs.
proof fn lemma_spans_of_spans<T>(groups: Seq<Seq<T>>, a: nat, b: nat)
    requires
        a > 0,
        b > 0,
    ensures
        spans(spans(groups, a), b) == spans(groups, a * b),
{
    let fine = spans(groups, a);
    let whole = a * b;
    assert(whole > 0) by (nonlinear_arith)
        requires
            a > 0,
            b > 0,
            whole == a * b,
    ;
    vstd::arithmetic::div_mod::lemma_div_denominator(groups.len() as int, a as int, b as int);
    let (x, y) = (spans(fine, b), spans(groups, whole));
    assert(x.len() == y.len());
    assert forall|j: int| 0 <= j < y.len() implies x[j] == y[j] by {
        lemma_run_within(groups.len(), whole, j);
        lemma_run_within(fine.len(), b, j);
        let h = run_of(groups, whole, j);
        assert(h.len() == b * a) by (nonlinear_arith)
            requires
                h.len() == whole,
                whole == a * b,
        ;
        lemma_together_spans(h, a, b);
        let run = run_of(fine, b, j);
        assert forall|i: int| 0 <= i < b implies run[i] == spans(h, a)[i] by {
            lemma_run_bounds(h.len(), a, b, i);
            lemma_run_within(groups.len(), a, j * b + i);
            assert((j * b + i) * a == j * whole + i * a) by (nonlinear_arith)
                requires
                    whole == a * b,
            ;
            assert((j * b + i + 1) * a == j * whole + (i + 1) * a) by (nonlinear_arith)
                requires
                    whole == a * b,
            ;
            assert(run_of(groups, a, j * b + i) =~= run_of(h, a, i));
        }
        assert(run =~= spans(h, a));
    }
    assert(x =~= y);
}

proof fn lemma_none_absent(plan: SignalPlan<Exact>, groups: Seq<Seq<Sample<Exact>>>)
    requires
        all_known(groups),
    ensures
        absent(each_remembered(plan, groups)) == 0,
    decreases groups.len(),
{
    if groups.len() > 0 {
        let before = groups.drop_last();
        assert forall|i: int| 0 <= i < before.len() implies (#[trigger] before[i]).len() > 0 by {
            assert(before[i] == groups[i]);
        }
        lemma_none_absent(plan, before);
        assert(each_remembered(plan, groups).drop_last() =~= each_remembered(plan, before));
        assert(groups[groups.len() - 1].len() > 0);
    }
}

proof fn lemma_together_part<T>(groups: Seq<Seq<T>>, from: int, to: int, i: int)
    requires
        0 <= from <= to <= groups.len(),
        0 <= i < together(groups.subrange(from, to)).len(),
    ensures
        together(groups).contains(together(groups.subrange(from, to))[i]),
        together(groups.subrange(from, to)).len() <= together(groups).len(),
{
    let (a, b, c) = (groups.take(from), groups.subrange(from, to), groups.skip(to));
    assert(groups =~= a + b + c);
    lemma_together_concat(a, b);
    lemma_together_concat(a + b, c);
    assert(together(groups)[together(a).len() + i] == together(b)[i]);
}

pub(crate) proof fn lemma_part_taken(
    plan: SignalPlan<Exact>,
    groups: Seq<Seq<Sample<Exact>>>,
    from: int,
    to: int,
)
    requires
        all_taken(plan, together(groups)),
        together(groups).len() <= u64::MAX,
        0 <= from <= to <= groups.len(),
    ensures
        all_taken(plan, together(groups.subrange(from, to))),
        together(groups.subrange(from, to)).len() <= u64::MAX,
{
    let part = together(groups.subrange(from, to));
    assert forall|i: int| 0 <= i < part.len() implies plan.takes(#[trigger] part[i]) && is_real(
        part[i],
    ) by {
        lemma_together_part(groups, from, to, i);
        let t = choose|t: int| 0 <= t < together(groups).len() && together(groups)[t] == part[i];
        assert(plan.takes(together(groups)[t]));
    }
    if part.len() > 0 {
        lemma_together_part(groups, from, to, 0);
    }
}

pub(crate) proof fn lemma_spans_taken(
    plan: SignalPlan<Exact>,
    groups: Seq<Seq<Sample<Exact>>>,
    n: nat,
)
    requires
        n > 0,
        all_taken(plan, together(groups)),
        together(groups).len() <= u64::MAX,
    ensures
        all_taken(plan, together(spans(groups, n))),
        together(spans(groups, n)).len() <= u64::MAX,
{
    let blocks = groups.len() / n;
    lemma_blocks(groups.len(), n);
    let head = groups.subrange(0, (blocks * n) as int);
    lemma_part_taken(plan, groups, 0, (blocks * n) as int);
    lemma_together_spans(head, n, blocks);
    assert forall|j: int| 0 <= j < blocks implies spans(head, n)[j] == spans(groups, n)[j] by {
        lemma_run_bounds(head.len(), n, blocks, j);
        assert(run_of(head, n, j) =~= run_of(groups, n, j));
    }
    assert(spans(head, n) =~= spans(groups, n));
}

/// Whether a share of unknown constituents is one that an archive may tolerate.
pub open spec fn is_tolerance(xff: Exact) -> bool {
    Exact::of_nat(0).le(xff) && xff.le(Exact::of_nat(1))
}

/// Whether a slot that spans the groups is too sparse to be known: more of them than
/// tolerated have no observation.
pub open spec fn too_sparse(
    plan: SignalPlan<Exact>,
    xff: Exact,
    groups: Seq<Seq<Sample<Exact>>>,
) -> bool {
    exceeds(absent(each_remembered(plan, groups)), groups.len(), xff)
}

/// The groups, joined in runs of `n`. Nothing is left of a run that is too sparse.
pub open spec fn kept(
    plan: SignalPlan<Exact>,
    xff: Exact,
    groups: Seq<Seq<Sample<Exact>>>,
    n: nat,
) -> Seq<Seq<Sample<Exact>>> {
    Seq::new(
        groups.len() / n,
        |j: int|
            if too_sparse(plan, xff, run_of(groups, n, j)) {
                Seq::empty()
            } else {
                together(run_of(groups, n, j))
            },
    )
}

/// From between two slots, an archive closes a slot for each run of steps, with and
/// without observations: it is unknown past the tolerance, and otherwise remembers what
/// was observed in the run.
pub proof fn law_slots_remember_what_is_known(
    plan: SignalPlan<Exact>,
    tier: Tier<Exact>,
    groups: Seq<Seq<Sample<Exact>>>,
)
    requires
        merges_exactly(plan),
        at_boundary(tier),
        tier.units > 0,
        all_taken(plan, together(groups)),
        together(groups).len() <= u64::MAX,
    ensures
        closed_by(tier, each_remembered(plan, groups)) == each_remembered(
            plan,
            kept(plan, tier.spec.xff, groups, tier.units),
        ),
{
    let n = tier.units;
    let units = each_remembered(plan, groups);
    law_slots_are_the_runs(tier, units);
    let made = closed_by(tier, units);
    let goal = each_remembered(plan, kept(plan, tier.spec.xff, groups, n));
    assert forall|j: int| 0 <= j < made.len() implies made[j] == goal[j] by {
        lemma_run_within(groups.len(), n, j);
        let run = run_of(groups, n, j);
        assert(run_of(units, n, j) =~= each_remembered(plan, run));
        lemma_part_taken(plan, groups, j * n, (j + 1) * n);
        law_fold_remembers_all(plan, run);
    }
    assert(made =~= goal);
}

proof fn lemma_together_of_taken(plan: SignalPlan<Exact>, groups: Seq<Seq<Sample<Exact>>>)
    requires
        forall|i: int| 0 <= i < groups.len() ==> all_taken(plan, #[trigger] groups[i]),
    ensures
        all_taken(plan, together(groups)),
    decreases groups.len(),
{
    if groups.len() > 0 {
        let before = groups.drop_last();
        assert forall|i: int| 0 <= i < before.len() implies all_taken(
            plan,
            #[trigger] before[i],
        ) by {
            assert(before[i] == groups[i]);
        }
        lemma_together_of_taken(plan, before);
        assert(all_taken(plan, groups[groups.len() - 1]));
        lemma_taken_concat(plan, together(before), groups.last());
    }
}

proof fn lemma_together_less<T>(a: Seq<Seq<T>>, b: Seq<Seq<T>>)
    requires
        a.len() == b.len(),
        forall|i: int| 0 <= i < a.len() ==> (#[trigger] a[i]).len() <= b[i].len(),
    ensures
        together(a).len() <= together(b).len(),
    decreases a.len(),
{
    if a.len() > 0 {
        let (x, y) = (a.drop_last(), b.drop_last());
        assert forall|i: int| 0 <= i < x.len() implies (#[trigger] x[i]).len() <= y[i].len() by {
            assert(a[i].len() <= b[i].len());
        }
        lemma_together_less(x, y);
        assert(a[a.len() - 1].len() <= b[b.len() - 1].len());
    }
}

proof fn lemma_kept_taken(
    plan: SignalPlan<Exact>,
    xff: Exact,
    groups: Seq<Seq<Sample<Exact>>>,
    n: nat,
)
    requires
        n > 0,
        all_taken(plan, together(groups)),
        together(groups).len() <= u64::MAX,
    ensures
        all_taken(plan, together(kept(plan, xff, groups, n))),
        together(kept(plan, xff, groups, n)).len() <= u64::MAX,
{
    let left = kept(plan, xff, groups, n);
    lemma_spans_taken(plan, groups, n);
    lemma_together_less(left, spans(groups, n));
    assert forall|j: int| 0 <= j < left.len() implies all_taken(plan, #[trigger] left[j]) by {
        lemma_run_within(groups.len(), n, j);
        lemma_part_taken(plan, groups, j * n, (j + 1) * n);
    }
    lemma_together_of_taken(plan, left);
}

proof fn lemma_nothing_exceeds(n: nat, xff: Exact)
    requires
        n > 0,
        is_tolerance(xff),
    ensures
        !exceeds(0, n, xff),
{
    let k = n as real;
    assert(0real / k == 0real) by (nonlinear_arith)
        requires
            k > 0real,
    ;
}

/// What the `i`th archive is fed: what the archives below it left of the groups.
spec fn fed_to(
    plan: SignalPlan<Exact>,
    tiers: Seq<Tier<Exact>>,
    groups: Seq<Seq<Sample<Exact>>>,
    i: int,
) -> Seq<Seq<Sample<Exact>>>
    decreases i,
{
    if i <= 0 {
        groups
    } else {
        kept(
            plan,
            tiers[i - 1].spec.xff,
            fed_to(plan, tiers, groups, i - 1),
            tiers[i - 1].units,
        )
    }
}

proof fn lemma_fed_to_shift(
    plan: SignalPlan<Exact>,
    tiers: Seq<Tier<Exact>>,
    groups: Seq<Seq<Sample<Exact>>>,
    i: int,
)
    requires
        0 < i <= tiers.len(),
    ensures
        fed_to(plan, tiers, groups, i) == fed_to(
            plan,
            tiers.drop_first(),
            kept(plan, tiers[0].spec.xff, groups, tiers[0].units),
            i - 1,
        ),
    decreases i,
{
    if i > 1 {
        lemma_fed_to_shift(plan, tiers, groups, i - 1);
    } else {
        assert(fed_to(plan, tiers, groups, 0) == groups);
    }
}

/// Whether the archives are all between two slots.
spec fn all_ready(tiers: Seq<Tier<Exact>>) -> bool {
    forall|i: int| 0 <= i < tiers.len() ==> at_boundary(#[trigger] tiers[i]) && tiers[i].units > 0
}

proof fn lemma_each_archive_is_fed(
    plan: SignalPlan<Exact>,
    tiers: Seq<Tier<Exact>>,
    groups: Seq<Seq<Sample<Exact>>>,
    i: int,
)
    requires
        merges_exactly(plan),
        all_ready(tiers),
        all_taken(plan, together(groups)),
        together(groups).len() <= u64::MAX,
        0 <= i < tiers.len(),
    ensures
        ran(tiers, each_remembered(plan, groups)).len() == tiers.len(),
        ran(tiers, each_remembered(plan, groups))[i] == fed_all(
            tiers[i],
            each_remembered(plan, fed_to(plan, tiers, groups, i)),
        ),
    decreases i,
{
    let steps = each_remembered(plan, groups);
    law_closed_slots_feed_the_archive_above(tiers, steps);
    assert(at_boundary(tiers[0]));
    if i > 0 {
        let upper = tiers.drop_first();
        let (n, xff) = (tiers[0].units, tiers[0].spec.xff);
        law_slots_remember_what_is_known(plan, tiers[0], groups);
        lemma_kept_taken(plan, xff, groups, n);
        assert forall|j: int| 0 <= j < upper.len() implies at_boundary(#[trigger] upper[j])
            && upper[j].units > 0 by {
            assert(at_boundary(tiers[j + 1]));
        }
        lemma_each_archive_is_fed(plan, upper, kept(plan, xff, groups, n), i - 1);
        lemma_fed_to_shift(plan, tiers, groups, i);
        assert(upper[i - 1] == tiers[i]);
    }
}

/// What the `i`th archive closes slots of: the steps, joined by it and by all the
/// archives below, each of which drops what is too sparse for it.
pub open spec fn surviving(
    plan: SignalPlan<Exact>,
    groups: Seq<Seq<Sample<Exact>>>,
    i: int,
) -> Seq<Seq<Sample<Exact>>>
    decreases i,
{
    kept(
        plan,
        plan.archives[i].xff,
        if i <= 0 {
            groups
        } else {
            surviving(plan, groups, i - 1)
        },
        plan.units(i) as nat,
    )
}

proof fn lemma_fed_to_surviving(
    plan: SignalPlan<Exact>,
    groups: Seq<Seq<Sample<Exact>>>,
    i: int,
)
    requires
        0 <= i < plan.archives.len(),
    ensures
        fed_to(plan, Channel::empty(plan).tiers, groups, i + 1) == surviving(plan, groups, i),
    decreases i,
{
    let tiers = Channel::empty(plan).tiers;
    if i > 0 {
        lemma_fed_to_surviving(plan, groups, i - 1);
    } else {
        assert(fed_to(plan, tiers, groups, 0) == groups);
    }
}

/// A slot of the `i`th archive of a sound signal has constituents.
proof fn lemma_units_positive(plan: SignalPlan<Exact>, i: int)
    requires
        plan.valid(),
        0 <= i < plan.archives.len(),
    ensures
        plan.units(i) > 0,
        i > 0 ==> plan.archives[i - 1].steps_per_slot as nat * plan.units(i) as nat
            == plan.archives[i].steps_per_slot,
        plan.archives[i].slots > 0,
        plan.archives[i].steps_per_slot > 0,
        is_tolerance(plan.archives[i].xff),
{
    lemma_units_span(plan, i);
    assert(plan.archives[i].steps_per_slot > 0);
}

proof fn lemma_fresh_is_ready(plan: SignalPlan<Exact>)
    requires
        plan.valid(),
    ensures
        all_ready(Channel::empty(plan).tiers),
{
    let tiers = Channel::empty(plan).tiers;
    assert forall|i: int| 0 <= i < tiers.len() implies at_boundary(#[trigger] tiers[i])
        && tiers[i].units > 0 by {
        lemma_units_positive(plan, i);
    }
}

/// Consolidation is exact all the way up, whatever was observed and whatever was not.
/// After any number of steps, with and without observations, the `i`th archive of a
/// signal retains its last slots, and each of them is the slot that all the
/// observations beneath it were recorded in, but for those that an archive below
/// dropped as too sparse.
pub proof fn law_every_slot_remembers_what_survived(
    plan: SignalPlan<Exact>,
    groups: Seq<Seq<Sample<Exact>>>,
    i: int,
)
    requires
        plan.valid(),
        merges_exactly(plan),
        all_taken(plan, together(groups)),
        together(groups).len() <= u64::MAX,
        0 <= i < plan.archives.len(),
    ensures
        ran(Channel::empty(plan).tiers, each_remembered(plan, groups))[i].ring.slots == last_of(
            each_remembered(plan, surviving(plan, groups, i)),
            plan.archives[i].slots as nat,
        ),
{
    let tiers = Channel::empty(plan).tiers;
    lemma_fresh_is_ready(plan);
    lemma_each_archive_is_fed(plan, tiers, groups, i);
    let fed = fed_to(plan, tiers, groups, i);
    lemma_units_positive(plan, i);
    lemma_fed_taken(plan, tiers, groups, i);
    assert(at_boundary(tiers[i]));
    law_slots_remember_what_is_known(plan, tiers[i], fed);
    lemma_fed_to_surviving(plan, groups, i);
    let units = each_remembered(plan, fed);
    law_ring_holds_the_closed_slots(tiers[i], units);
    law_ring_holds_the_last(tiers[i].ring, closed_by(tiers[i], units));
    assert(tiers[i].ring.slots + closed_by(tiers[i], units) =~= closed_by(tiers[i], units));
}

proof fn lemma_fed_taken(
    plan: SignalPlan<Exact>,
    tiers: Seq<Tier<Exact>>,
    groups: Seq<Seq<Sample<Exact>>>,
    i: int,
)
    requires
        all_ready(tiers),
        all_taken(plan, together(groups)),
        together(groups).len() <= u64::MAX,
        0 <= i <= tiers.len(),
    ensures
        all_taken(plan, together(fed_to(plan, tiers, groups, i))),
        together(fed_to(plan, tiers, groups, i)).len() <= u64::MAX,
    decreases i,
{
    if i > 0 {
        lemma_fed_taken(plan, tiers, groups, i - 1);
        assert(tiers[i - 1].units > 0);
        lemma_kept_taken(
            plan,
            tiers[i - 1].spec.xff,
            fed_to(plan, tiers, groups, i - 1),
            tiers[i - 1].units,
        );
    }
}

/// What survives is what was observed.
pub(crate) proof fn lemma_surviving_taken(
    plan: SignalPlan<Exact>,
    groups: Seq<Seq<Sample<Exact>>>,
    i: int,
)
    requires
        plan.valid(),
        all_taken(plan, together(groups)),
        together(groups).len() <= u64::MAX,
        0 <= i < plan.archives.len(),
    ensures
        all_taken(plan, together(surviving(plan, groups, i))),
        together(surviving(plan, groups, i)).len() <= u64::MAX,
{
    lemma_fresh_is_ready(plan);
    lemma_fed_taken(plan, Channel::empty(plan).tiers, groups, i + 1);
    lemma_fed_to_surviving(plan, groups, i);
}

/// The steps, joined as the slots of the archive below the `i`th span them.
pub open spec fn beneath(
    plan: SignalPlan<Exact>,
    groups: Seq<Seq<Sample<Exact>>>,
    i: int,
) -> Seq<Seq<Sample<Exact>>> {
    if i <= 0 {
        groups
    } else {
        spans(groups, plan.archives[i - 1].steps_per_slot as nat)
    }
}

/// Whether the `j`th slot of the `i`th archive is too sparse to be known.
pub open spec fn is_dropped(
    plan: SignalPlan<Exact>,
    groups: Seq<Seq<Sample<Exact>>>,
    i: int,
    j: int,
) -> bool {
    let n = plan.units(i) as nat;
    too_sparse(plan, plan.archives[i].xff, run_of(beneath(plan, groups, i), n, j))
}

/// Whether the `i`th archive drops no slot as too sparse.
pub open spec fn drops_nothing(
    plan: SignalPlan<Exact>,
    groups: Seq<Seq<Sample<Exact>>>,
    i: int,
) -> bool {
    forall|j: int|
        0 <= j < groups.len() / plan.archives[i].steps_per_slot as nat ==> !#[trigger] is_dropped(
            plan,
            groups,
            i,
            j,
        )
}

/// Where the archives below drop nothing, a slot of the `i`th is of all the steps it
/// spans, or is dropped itself.
proof fn lemma_surviving_spans(
    plan: SignalPlan<Exact>,
    groups: Seq<Seq<Sample<Exact>>>,
    i: int,
)
    requires
        plan.valid(),
        0 <= i < plan.archives.len(),
        forall|a: int| 0 <= a < i ==> drops_nothing(plan, groups, a),
    ensures
        surviving(plan, groups, i) == Seq::new(
            groups.len() / plan.archives[i].steps_per_slot as nat,
            |j: int|
                if is_dropped(plan, groups, i, j) {
                    Seq::empty()
                } else {
                    spans(groups, plan.archives[i].steps_per_slot as nat)[j]
                },
        ),
    decreases i,
{
    let span = plan.archives[i].steps_per_slot as nat;
    let n = plan.units(i) as nat;
    let below = beneath(plan, groups, i);
    lemma_units_positive(plan, i);
    if i > 0 {
        lemma_surviving_spans(plan, groups, i - 1);
        assert(drops_nothing(plan, groups, i - 1));
        let part = plan.archives[i - 1].steps_per_slot as nat;
        assert(surviving(plan, groups, i - 1) =~= spans(groups, part));
        lemma_units_positive(plan, i - 1);
        lemma_spans_of_spans(groups, part, n);
    }
    assert(spans(below, n) == spans(groups, span));
    let left = surviving(plan, groups, i);
    assert(left == kept(plan, plan.archives[i].xff, below, n));
    assert(left.len() == spans(below, n).len());
    assert forall|j: int| 0 <= j < left.len() implies left[j] == if is_dropped(
        plan,
        groups,
        i,
        j,
    ) {
        Seq::empty()
    } else {
        spans(groups, span)[j]
    } by {
        assert(spans(below, n)[j] == together(run_of(below, n, j)));
    }
}

/// A closed slot, however coarse, summarises exactly what was observed in the steps
/// beneath it, the steps without an observation adding nothing: where no archive below
/// dropped a slot as too sparse, the `j`th slot of the `i`th archive is the slot that
/// the observations of all the steps it spans were recorded in, or unknown where it is
/// too sparse itself.
pub proof fn law_every_slot_remembers_its_steps(
    plan: SignalPlan<Exact>,
    groups: Seq<Seq<Sample<Exact>>>,
    i: int,
)
    requires
        plan.valid(),
        merges_exactly(plan),
        all_taken(plan, together(groups)),
        together(groups).len() <= u64::MAX,
        0 <= i < plan.archives.len(),
        forall|a: int| 0 <= a < i ==> drops_nothing(plan, groups, a),
    ensures
        ran(Channel::empty(plan).tiers, each_remembered(plan, groups))[i].ring.slots == last_of(
            Seq::new(
                groups.len() / plan.archives[i].steps_per_slot as nat,
                |j: int|
                    if is_dropped(plan, groups, i, j) {
                        None
                    } else {
                        remembered(
                            plan,
                            spans(groups, plan.archives[i].steps_per_slot as nat)[j],
                        )
                    },
            ),
            plan.archives[i].slots as nat,
        ),
{
    law_every_slot_remembers_what_survived(plan, groups, i);
    lemma_surviving_spans(plan, groups, i);
    let made = each_remembered(plan, surviving(plan, groups, i));
    let goal = Seq::new(
        groups.len() / plan.archives[i].steps_per_slot as nat,
        |j: int|
            if is_dropped(plan, groups, i, j) {
                None
            } else {
                remembered(plan, spans(groups, plan.archives[i].steps_per_slot as nat)[j])
            },
    );
    assert(made =~= goal);
}

/// Where no archive up to the `i`th drops a slot, all that was observed survives: the
/// slots are of all the steps that they span.
pub proof fn law_what_is_not_dropped_survives(
    plan: SignalPlan<Exact>,
    groups: Seq<Seq<Sample<Exact>>>,
    i: int,
)
    requires
        plan.valid(),
        0 <= i < plan.archives.len(),
        forall|a: int| 0 <= a <= i ==> drops_nothing(plan, groups, a),
    ensures
        surviving(plan, groups, i) == spans(groups, plan.archives[i].steps_per_slot as nat),
{
    lemma_surviving_spans(plan, groups, i);
    assert(drops_nothing(plan, groups, i));
    assert(surviving(plan, groups, i) =~= spans(
        groups,
        plan.archives[i].steps_per_slot as nat,
    ));
}

/// Where every step has an observation, no archive drops a slot.
pub proof fn law_known_steps_are_not_dropped(
    plan: SignalPlan<Exact>,
    groups: Seq<Seq<Sample<Exact>>>,
    i: int,
)
    requires
        plan.valid(),
        all_known(groups),
        0 <= i < plan.archives.len(),
    ensures
        drops_nothing(plan, groups, i),
{
    lemma_units_positive(plan, i);
    let n = plan.units(i) as nat;
    let below = beneath(plan, groups, i);
    if i > 0 {
        let part = plan.archives[i - 1].steps_per_slot as nat;
        lemma_units_positive(plan, i - 1);
        lemma_spans_known(groups, part);
        lemma_spans_of_spans(groups, part, n);
        assert(spans(below, n).len() == spans(groups, part * n).len());
    }
    let whole = plan.archives[i].steps_per_slot as nat;
    assert forall|j: int| 0 <= j < groups.len() / whole implies !#[trigger] is_dropped(
        plan,
        groups,
        i,
        j,
    ) by {
        assert(j < below.len() / n);
        lemma_run_within(below.len(), n, j);
        let run = run_of(below, n, j);
        assert forall|t: int| 0 <= t < run.len() implies (#[trigger] run[t]).len() > 0 by {
            assert(run[t] == below[j * n + t]);
        }
        lemma_none_absent(plan, run);
        lemma_nothing_exceeds(n, plan.archives[i].xff);
    }
}

} // verus!
