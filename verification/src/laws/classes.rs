//! Class counters are exact: merging them loses nothing.

use vstd::prelude::*;

use crate::arith::Arith;
use crate::categorical::{
    counted, counts_addable, counts_joined, counts_total, dominant_of, entropy_of, entropy_over,
    is_dominant, lemma_total_of_class, lemma_total_of_counted, lemma_total_of_joined, no_counts,
};
use crate::exact::{
    has_logarithm, lemma_logarithm, lemma_logarithm_positive, logarithm, Exact,
};
use crate::laws::scalars::{lemma_cancel, lemma_distribute, lemma_times_quotient, total};

verus! {

/// The counters after the observations, one after the other.
pub open spec fn tallied(classes: nat, seen: Seq<int>) -> Seq<u64>
    decreases seen.len(),
{
    if seen.len() == 0 {
        no_counts(classes)
    } else {
        counted(tallied(classes, seen.drop_last()), seen.last())
    }
}

/// How often a class occurs among the observations.
pub open spec fn occurrences(seen: Seq<int>, class: int) -> nat
    decreases seen.len(),
{
    if seen.len() == 0 {
        0
    } else {
        occurrences(seen.drop_last(), class) + if seen.last() == class {
            1nat
        } else {
            0nat
        }
    }
}

/// Whether the observations are of the declared classes.
pub open spec fn all_declared(classes: nat, seen: Seq<int>) -> bool {
    forall|i: int| 0 <= i < seen.len() ==> 0 <= #[trigger] seen[i] < classes
}

/// How many of the first `upto` classes were observed.
pub open spec fn observed(counts: Seq<u64>, upto: nat) -> nat
    decreases upto,
{
    if upto == 0 {
        0
    } else {
        observed(counts, (upto - 1) as nat) + if counts[upto - 1] > 0 {
            1nat
        } else {
            0nat
        }
    }
}

proof fn lemma_declared_before(classes: nat, seen: Seq<int>)
    requires
        all_declared(classes, seen),
        seen.len() > 0,
    ensures
        all_declared(classes, seen.drop_last()),
        0 <= seen.last() < classes,
{
    let before = seen.drop_last();
    assert forall|i: int| 0 <= i < before.len() implies 0 <= #[trigger] before[i] < classes by {
        assert(before[i] == seen[i]);
    }
    assert(0 <= seen[seen.len() - 1] < classes);
}

proof fn lemma_occurrences_bound(seen: Seq<int>, class: int)
    ensures
        occurrences(seen, class) <= seen.len(),
    decreases seen.len(),
{
    if seen.len() > 0 {
        lemma_occurrences_bound(seen.drop_last(), class);
    }
}

proof fn lemma_occurrences_concat(a: Seq<int>, b: Seq<int>, class: int)
    ensures
        occurrences(a + b, class) == occurrences(a, class) + occurrences(b, class),
    decreases b.len(),
{
    if b.len() == 0 {
        assert(a + b =~= a);
    } else {
        lemma_occurrences_concat(a, b.drop_last(), class);
        assert((a + b).drop_last() =~= a + b.drop_last());
    }
}

/// Every counter holds how often its class was observed.
pub proof fn law_counters_count_occurrences(classes: nat, seen: Seq<int>, class: int)
    requires
        all_declared(classes, seen),
        seen.len() <= u64::MAX,
        0 <= class < classes,
    ensures
        tallied(classes, seen).len() == classes,
        tallied(classes, seen)[class] == occurrences(seen, class),
    decreases seen.len(),
{
    if seen.len() > 0 {
        lemma_declared_before(classes, seen);
        let before = seen.drop_last();
        law_counters_count_occurrences(classes, before, class);
        law_counters_count_occurrences(classes, before, seen.last());
        lemma_occurrences_bound(before, class);
        lemma_occurrences_bound(before, seen.last());
    }
}

/// Merging two sets of counters gives what counting the observations of both in one
/// pass gives. So the dominant class and the entropy are those of all observations.
pub proof fn law_merge_matches_single_pass(classes: nat, a: Seq<int>, b: Seq<int>)
    requires
        all_declared(classes, a),
        all_declared(classes, b),
        a.len() + b.len() <= u64::MAX,
    ensures
        counts_addable(tallied(classes, a), tallied(classes, b)),
        counts_joined(tallied(classes, a), tallied(classes, b)) == tallied(classes, a + b),
{
    let all = a + b;
    assert forall|i: int| 0 <= i < all.len() implies 0 <= #[trigger] all[i] < classes by {
        if i < a.len() {
            assert(all[i] == a[i]);
        } else {
            assert(all[i] == b[i - a.len()]);
        }
    }
    let (x, y, z) = (tallied(classes, a), tallied(classes, b), tallied(classes, all));
    lemma_tallied_len(classes, a);
    lemma_tallied_len(classes, b);
    lemma_tallied_len(classes, all);
    assert forall|i: int| 0 <= i < classes implies #[trigger] x[i] + #[trigger] y[i] == z[i] by {
        law_counters_count_occurrences(classes, a, i);
        law_counters_count_occurrences(classes, b, i);
        law_counters_count_occurrences(classes, all, i);
        lemma_occurrences_concat(a, b, i);
    }
    assert(counts_joined(x, y) =~= z);
}

proof fn lemma_tallied_len(classes: nat, seen: Seq<int>)
    requires
        all_declared(classes, seen),
    ensures
        tallied(classes, seen).len() == classes,
    decreases seen.len(),
{
    if seen.len() > 0 {
        lemma_declared_before(classes, seen);
        lemma_tallied_len(classes, seen.drop_last());
    }
}

/// Counters add: in whatever order and grouping they are merged, the sums are the
/// same, and so is the number of observations.
pub proof fn law_merge_is_addition(a: Seq<u64>, b: Seq<u64>, c: Seq<u64>)
    requires
        counts_addable(a, b),
        counts_addable(counts_joined(a, b), c),
    ensures
        counts_joined(a, b) == counts_joined(b, a),
        counts_joined(counts_joined(a, b), c) == counts_joined(a, counts_joined(b, c)),
        counts_total(counts_joined(a, b)) == counts_total(a) + counts_total(b),
{
    let ab = counts_joined(a, b);
    let bc = counts_joined(b, c);
    lemma_total_of_joined(a, b);
    assert(ab =~= counts_joined(b, a));
    assert forall|i: int| 0 <= i < a.len() implies counts_joined(ab, c)[i] == counts_joined(
        a,
        bc,
    )[i] by {
        assert(a[i] + b[i] <= u64::MAX);
        assert(ab[i] + c[i] <= u64::MAX);
        assert(bc[i] == b[i] + c[i]);
    }
    assert(counts_joined(ab, c) =~= counts_joined(a, bc));
}

proof fn lemma_total_zero(counts: Seq<u64>)
    ensures
        counts_total(counts) == 0 <==> forall|i: int| 0 <= i < counts.len() ==> counts[i] == 0,
    decreases counts.len(),
{
    if counts.len() > 0 {
        let before = counts.drop_last();
        lemma_total_zero(before);
        if counts_total(counts) == 0 {
            assert forall|i: int| 0 <= i < counts.len() implies counts[i] == 0 by {
                if i < before.len() {
                    assert(before[i] == counts[i]);
                }
            }
        } else if counts_total(before) != 0 {
            let i = choose|i: int| 0 <= i < before.len() && before[i] != 0;
            assert(counts[i] != 0);
        } else {
            assert(counts[counts.len() - 1] != 0);
        }
    }
}

proof fn lemma_some_dominant(counts: Seq<u64>)
    requires
        counts.len() <= usize::MAX,
        counts_total(counts) > 0,
    ensures
        exists|c: usize| is_dominant(counts, c as int),
    decreases counts.len(),
{
    let before = counts.drop_last();
    let last = (counts.len() - 1) as usize;
    if counts_total(before) == 0 {
        lemma_total_zero(before);
        assert forall|j: int| 0 <= j < last implies #[trigger] counts[j] == 0 by {
            assert(before[j] == counts[j]);
        }
        assert(is_dominant(counts, last as int));
    } else {
        lemma_some_dominant(before);
        let c = choose|c: usize| is_dominant(before, c as int);
        assert forall|j: int| 0 <= j < last implies #[trigger] counts[j] <= counts[c as int] && (j
            < c ==> counts[j] < counts[c as int]) by {
            assert(before[j] == counts[j]);
            assert(before[c as int] == counts[c as int]);
        }
        if counts.last() > counts[c as int] {
            assert(is_dominant(counts, last as int));
        } else {
            assert(is_dominant(counts, c as int));
        }
    }
}

/// There is a dominant class exactly where anything was observed. It is the lowest of
/// those observed most often.
pub proof fn law_dominant_is_the_lowest_of_the_most_frequent(counts: Seq<u64>)
    requires
        counts.len() <= usize::MAX,
    ensures
        dominant_of(counts) is None <==> counts_total(counts) == 0,
        dominant_of(counts) is None <==> forall|j: int|
            0 <= j < counts.len() ==> counts[j] == 0,
        dominant_of(counts) matches Some(c) ==> {
            &&& is_dominant(counts, c as int)
            &&& c < counts.len()
            &&& counts[c as int] > 0
            &&& forall|j: int| 0 <= j < counts.len() ==> #[trigger] counts[j] <= counts[c as int]
            &&& forall|j: int| 0 <= j < counts.len() && counts[j] == counts[c as int] ==> c <= j
        },
{
    if counts_total(counts) > 0 {
        lemma_some_dominant(counts);
    } else {
        lemma_total_zero(counts);
        assert(forall|c: usize| !is_dominant(counts, c as int));
    }
}

/// The entropy is answered exactly where anything was observed, in whatever
/// arithmetic.
pub proof fn law_entropy_of_nothing_is_unanswered<F: Arith>(counts: Seq<u64>)
    ensures
        entropy_of::<F>(counts) is None <==> counts_total(counts) == 0,
{
}

/// The total is of all classes, and after observations it is how many they were.
pub proof fn law_total_counts_every_observation(classes: nat, seen: Seq<int>)
    requires
        all_declared(classes, seen),
        seen.len() <= u64::MAX,
    ensures
        counts_total(tallied(classes, seen)) == seen.len(),
    decreases seen.len(),
{
    if seen.len() == 0 {
        lemma_total_zero(no_counts(classes));
    } else {
        lemma_declared_before(classes, seen);
        let before = seen.drop_last();
        law_total_counts_every_observation(classes, before);
        lemma_tallied_len(classes, before);
        lemma_total_of_class(tallied(classes, before), seen.last());
        lemma_total_of_counted(tallied(classes, before), seen.last());
    }
}

/// The total of counters is the sum of them, whatever they are.
pub proof fn law_total_is_the_sum_of_the_counters(counts: Seq<u64>)
    ensures
        counts_total(counts) as real == total(counts.map_values(|c: u64| c as real)),
    decreases counts.len(),
{
    let all = counts.map_values(|c: u64| c as real);
    if counts.len() > 0 {
        law_total_is_the_sum_of_the_counters(counts.drop_last());
        assert(all.drop_last() =~= counts.drop_last().map_values(|c: u64| c as real));
    }
}

/// Every observed class takes its share times the logarithm of its share off the entropy,
/// in the order of the classes, and one that was not observed takes nothing off, in
/// whatever arithmetic.
pub proof fn law_each_class_adds_to_the_entropy<F: Arith>(counts: Seq<u64>, i: nat)
    requires
        i < counts.len(),
        counts_total(counts) > 0,
    ensures
        ({
            let p = F::of_nat(counts[i as int] as nat).quot(F::of_nat(counts_total(counts)));
            &&& entropy_of::<F>(counts) == Some(entropy_over::<F>(counts, counts.len()))
            &&& entropy_over::<F>(counts, 0) == F::of_nat(0)
            &&& counts[i as int] == 0 ==> entropy_over::<F>(counts, i + 1) == entropy_over::<F>(
                counts,
                i,
            )
            &&& counts[i as int] > 0 ==> entropy_over::<F>(counts, i + 1) == entropy_over::<F>(
                counts,
                i,
            ).diff(p.prod(p.log()))
        }),
{
}

/// What each class adds to the entropy of `n` observations in all: its share times the
/// logarithm of the share, with the sign turned, and nothing where it was not observed.
pub open spec fn information(counts: Seq<u64>, n: real) -> Seq<real> {
    counts.map_values(
        |c: u64|
            if c == 0 {
                0real
            } else {
                0real - ((c as real) / n) * logarithm((c as real) / n)
            },
    )
}

proof fn lemma_entropy_sum(counts: Seq<u64>, upto: nat)
    requires
        upto <= counts.len(),
        counts_total(counts) > 0,
    ensures
        entropy_over::<Exact>(counts, upto) == Exact::Finite(
            total(information(counts, counts_total(counts) as real).take(upto as int)),
        ),
    decreases upto,
{
    let n = counts_total(counts) as real;
    let all = information(counts, n);
    if upto > 0 {
        lemma_entropy_sum(counts, (upto - 1) as nat);
        assert(all.take(upto as int).drop_last() =~= all.take(upto - 1));
        let c = counts[upto - 1];
        assert(all.take(upto as int).last() == all[upto - 1]);
        if c > 0 {
            lemma_share_positive(c as real, n);
        }
    }
}

/// The entropy is the sum, over every class that was observed, of its share times the
/// logarithm of its share, with the sign turned.
pub proof fn law_entropy_is_the_sum_over_the_classes(counts: Seq<u64>)
    requires
        counts_total(counts) > 0,
    ensures
        entropy_of::<Exact>(counts) == Some(
            Exact::Finite(total(information(counts, counts_total(counts) as real))),
        ),
{
    lemma_entropy_sum(counts, counts.len());
    let all = information(counts, counts_total(counts) as real);
    assert(all.take(counts.len() as int) =~= all);
}

proof fn lemma_total_without(xs: Seq<real>, i: int)
    requires
        0 <= i < xs.len(),
    ensures
        total(xs.remove(i)) + xs[i] == total(xs),
    decreases xs.len(),
{
    if i == xs.len() - 1 {
        assert(xs.remove(i) =~= xs.drop_last());
    } else {
        lemma_total_without(xs.drop_last(), i);
        assert(xs.remove(i).drop_last() =~= xs.drop_last().remove(i));
    }
}

proof fn lemma_total_of_permuted(a: Seq<u64>, b: Seq<u64>, f: spec_fn(u64) -> real)
    requires
        a.to_multiset() == b.to_multiset(),
    ensures
        total(a.map_values(f)) == total(b.map_values(f)),
    decreases a.len(),
{
    broadcast use vstd::seq_lib::group_to_multiset_ensures;

    a.to_multiset_ensures();
    b.to_multiset_ensures();
    assert(a.len() == b.len());
    if a.len() > 0 {
        let c = a.last();
        assert(a.contains(c));
        assert(b.to_multiset().count(c) > 0);
        assert(b.contains(c));
        let i = choose|i: int| 0 <= i < b.len() && b[i] == c;
        let rest = b.remove(i);
        assert(a.drop_last() =~= a.remove(a.len() - 1));
        assert(a.drop_last().to_multiset() =~= rest.to_multiset());
        lemma_total_of_permuted(a.drop_last(), rest, f);
        lemma_total_without(b.map_values(f), i);
        assert(b.map_values(f).remove(i) =~= rest.map_values(f));
        assert(a.map_values(f).drop_last() =~= a.drop_last().map_values(f));
    } else {
        assert(a.map_values(f) =~= b.map_values(f));
    }
}

/// Which class is which does not matter to the entropy: counters in another order have
/// the same.
pub proof fn law_entropy_does_not_depend_on_the_order(a: Seq<u64>, b: Seq<u64>)
    requires
        a.to_multiset() == b.to_multiset(),
    ensures
        counts_total(a) == counts_total(b),
        entropy_of::<Exact>(a) == entropy_of::<Exact>(b),
{
    lemma_total_of_permuted(a, b, |c: u64| c as real);
    law_total_is_the_sum_of_the_counters(a);
    law_total_is_the_sum_of_the_counters(b);
    if counts_total(a) > 0 {
        let n = counts_total(a) as real;
        law_entropy_is_the_sum_over_the_classes(a);
        law_entropy_is_the_sum_over_the_classes(b);
        lemma_total_of_permuted(
            a,
            b,
            |c: u64|
                if c == 0 {
                    0real
                } else {
                    0real - ((c as real) / n) * logarithm((c as real) / n)
                },
        );
    }
}

/// What a class of share `p` adds to the entropy.
spec fn surprise(p: real) -> real {
    p * logarithm(p)
}

proof fn lemma_entropy_uniform(counts: Seq<u64>, m: u64, upto: nat)
    requires
        m > 0,
        upto <= counts.len(),
        counts_total(counts) > 0,
        forall|i: int| 0 <= i < counts.len() ==> #[trigger] counts[i] == 0 || counts[i] == m,
    ensures
        entropy_over::<Exact>(counts, upto) == Exact::Finite(
            0real - (observed(counts, upto) as real) * surprise(
                (m as real) / (counts_total(counts) as real),
            ),
        ),
    decreases upto,
{
    let p = (m as real) / (counts_total(counts) as real);
    let s = surprise(p);
    if upto == 0 {
        assert(0real * s == 0real) by (nonlinear_arith);
    } else {
        lemma_entropy_uniform(counts, m, (upto - 1) as nat);
        let k = observed(counts, (upto - 1) as nat) as real;
        if counts[upto - 1] > 0 {
            lemma_share_positive(m as real, counts_total(counts) as real);
            lemma_distribute(s, k, 1real);
            assert(s * k == k * s) by (nonlinear_arith);
            assert(observed(counts, upto) as real == k + 1real);
        }
    }
}

proof fn lemma_share_positive(m: real, n: real)
    requires
        m > 0real,
        n > 0real,
    ensures
        m / n > 0real,
{
    assert(m / n > 0real) by (nonlinear_arith)
        requires
            m > 0real,
            n > 0real,
    ;
}

proof fn lemma_total_uniform(counts: Seq<u64>, m: u64)
    requires
        forall|i: int| 0 <= i < counts.len() ==> #[trigger] counts[i] == 0 || counts[i] == m,
        m > 0,
    ensures
        counts_total(counts) as real == (observed(counts, counts.len()) as real) * (m as real),
    decreases counts.len(),
{
    if counts.len() == 0 {
        let x = m as real;
        assert(0real * x == 0real) by (nonlinear_arith);
    } else {
        let before = counts.drop_last();
        assert forall|i: int| 0 <= i < before.len() implies #[trigger] before[i] == 0 || before[i]
            == m by {
            assert(before[i] == counts[i]);
        }
        lemma_total_uniform(before, m);
        lemma_observed_prefix(counts, before.len());
        let k = observed(before, before.len()) as real;
        assert(counts[counts.len() - 1] == 0 || counts[counts.len() - 1] == m);
        if counts.last() > 0 {
            assert(observed(counts, counts.len()) as real == k + 1real);
            lemma_distribute(m as real, k, 1real);
            let x = m as real;
            assert(x * k == k * x) by (nonlinear_arith);
        }
    }
}

proof fn lemma_observed_prefix(counts: Seq<u64>, upto: nat)
    requires
        upto < counts.len(),
    ensures
        observed(counts, upto) == observed(counts.drop_last(), upto),
    decreases upto,
{
    if upto > 0 {
        lemma_observed_prefix(counts, (upto - 1) as nat);
        assert(counts.drop_last()[upto - 1] == counts[upto - 1]);
    }
}

/// The entropy of classes that were observed equally often is the logarithm of how
/// many they are.
pub proof fn law_entropy_of_uniform_classes(counts: Seq<u64>, m: u64)
    requires
        has_logarithm(),
        m > 0,
        counts_total(counts) > 0,
        forall|i: int| 0 <= i < counts.len() ==> #[trigger] counts[i] == 0 || counts[i] == m,
    ensures
        entropy_of::<Exact>(counts) == Some(
            Exact::Finite(logarithm(observed(counts, counts.len()) as real)),
        ),
        observed(counts, counts.len()) >= 2 ==> logarithm(
            observed(counts, counts.len()) as real,
        ) > 0real,
{
    let n = counts_total(counts) as real;
    let k = observed(counts, counts.len()) as real;
    let x = m as real;
    let p = x / n;
    lemma_entropy_uniform(counts, m, counts.len());
    lemma_total_uniform(counts, m);
    lemma_share_positive(x, n);
    assert(k > 0real) by (nonlinear_arith)
        requires
            n == k * x,
            n > 0real,
            x > 0real,
    ;
    assert(k * p == 1real) by {
        lemma_times_quotient(x, n);
        assert(n * p == x);
        assert(x * (k * p) == (k * x) * p) by (nonlinear_arith);
        lemma_cancel(x, k * p, 1real);
    }
    lemma_logarithm(k, p);
    lemma_logarithm_positive(k);
    assert(logarithm(p) == 0real - logarithm(k));
    let (lp, lk) = (logarithm(p), logarithm(k));
    assert(k * (p * lp) == (k * p) * lp) by (nonlinear_arith);
    assert((k * p) * lp == lp) by (nonlinear_arith)
        requires
            k * p == 1real,
    ;
}

proof fn lemma_observed_one(counts: Seq<u64>, class: int, upto: nat)
    requires
        0 <= class < counts.len(),
        upto <= counts.len(),
        counts[class] > 0,
        forall|i: int| 0 <= i < counts.len() && i != class ==> #[trigger] counts[i] == 0,
    ensures
        observed(counts, upto) == if class < upto {
            1nat
        } else {
            0nat
        },
    decreases upto,
{
    if upto > 0 {
        lemma_observed_one(counts, class, (upto - 1) as nat);
    }
}

/// What a class of share `p` adds to the entropy is not negative, and no more than its
/// share of the logarithm of `k` and what it has to `k` equal shares.
proof fn lemma_surprise(p: real, k: real)
    requires
        has_logarithm(),
        0real < p <= 1real,
        k > 0real,
    ensures
        surprise(p) <= 0real,
        0real - surprise(p) <= p * logarithm(k) + 1real / k - p,
{
    let (lp, lk) = (logarithm(p), logarithm(k));
    lemma_logarithm(p, k);
    assert(p * lp <= 0real) by (nonlinear_arith)
        requires
            p > 0real,
            lp <= p - 1real,
            p <= 1real,
    ;
    let kp = p * k;
    assert(kp > 0real) by (nonlinear_arith)
        requires
            p > 0real,
            k > 0real,
            kp == p * k,
    ;
    let x = 1real / kp;
    lemma_share_positive(1real, kp);
    lemma_times_quotient(1real, kp);
    lemma_logarithm(kp, x);
    lemma_logarithm(x, kp);
    let q = 1real / k;
    lemma_times_quotient(1real, k);
    assert(p * x == q) by {
        assert(k * (p * x) == (p * k) * x) by (nonlinear_arith);
        lemma_cancel(k, p * x, q);
    }
    let lx = logarithm(x);
    assert(lx == 0real - lp - lk);
    assert(p * lx <= p * x - p) by (nonlinear_arith)
        requires
            lx <= x - 1real,
            p > 0real,
    ;
    assert(p * lx == 0real - p * lp - p * lk) by (nonlinear_arith)
        requires
            lx == 0real - lp - lk,
    ;
}

proof fn lemma_entropy_bound(counts: Seq<u64>, k: real, upto: nat)
    requires
        has_logarithm(),
        upto <= counts.len(),
        counts_total(counts) > 0,
        k > 0real,
    ensures
        entropy_over::<Exact>(counts, upto) is Finite,
        entropy_over::<Exact>(counts, upto)->Finite_0 >= 0real,
        ({
            let part = (counts_total(counts.take(upto as int)) as real) / (counts_total(
                counts,
            ) as real);
            entropy_over::<Exact>(counts, upto)->Finite_0 <= part * logarithm(k) + (observed(
                counts,
                upto,
            ) as real) * (1real / k) - part
        }),
    decreases upto,
{
    let n = counts_total(counts) as real;
    let (lk, q) = (logarithm(k), 1real / k);
    if upto == 0 {
        assert(counts.take(0).len() == 0);
        assert(0real / n == 0real) by (nonlinear_arith)
            requires
                n > 0real,
        ;
        assert(0real * lk == 0real) by (nonlinear_arith);
        assert(0real * q == 0real) by (nonlinear_arith);
    } else {
        let less = (upto - 1) as nat;
        lemma_entropy_bound(counts, k, less);
        let c = counts[less as int];
        let (was, now) = (counts.take(less as int), counts.take(upto as int));
        assert(now.drop_last() =~= was);
        assert(now.last() == c);
        let (s, x) = (counts_total(was) as real, c as real);
        let (part, p) = (s / n, x / n);
        assert((s + x) / n == part + p) by (nonlinear_arith)
            requires
                n > 0real,
                part == s / n,
                p == x / n,
        ;
        if c > 0 {
            lemma_total_of_class(counts, less as int);
            lemma_share_positive(x, n);
            assert(p <= 1real) by (nonlinear_arith)
                requires
                    p == x / n,
                    x <= n,
                    n > 0real,
            ;
            lemma_surprise(p, k);
            let o = observed(counts, less) as real;
            assert(observed(counts, upto) as real == o + 1real);
            lemma_distribute(lk, part, p);
            lemma_distribute(q, o, 1real);
            assert(lk * part == part * lk && lk * p == p * lk && q * o == o * q)
                by (nonlinear_arith);
        } else {
            assert(p == 0real) by (nonlinear_arith)
                requires
                    p == x / n,
                    x == 0real,
                    n > 0real,
            ;
        }
    }
}

/// The entropy is never negative, and never above the logarithm of how many classes
/// were observed.
pub proof fn law_entropy_is_bounded(counts: Seq<u64>)
    requires
        has_logarithm(),
        counts_total(counts) > 0,
    ensures
        entropy_of::<Exact>(counts) matches Some(Exact::Finite(h)) && 0real <= h <= logarithm(
            observed(counts, counts.len()) as real,
        ),
{
    let n = counts_total(counts) as real;
    let k = observed(counts, counts.len()) as real;
    lemma_some_observed(counts, counts.len());
    assert(counts.take(counts.len() as int) =~= counts);
    lemma_entropy_bound(counts, k, counts.len());
    assert(n / n == 1real) by (nonlinear_arith)
        requires
            n > 0real,
    ;
    lemma_times_quotient(1real, k);
    let lk = logarithm(k);
    assert(1real * lk == lk) by (nonlinear_arith);
}

proof fn lemma_some_observed(counts: Seq<u64>, upto: nat)
    requires
        upto <= counts.len(),
    ensures
        counts_total(counts.take(upto as int)) > 0 ==> observed(counts, upto) > 0,
    decreases upto,
{
    if upto == 0 {
        assert(counts.take(0).len() == 0);
    } else {
        lemma_some_observed(counts, (upto - 1) as nat);
        assert(counts.take(upto as int).drop_last() =~= counts.take(upto - 1));
    }
}

/// The entropy is zero where one class holds everything.
pub proof fn law_entropy_of_certainty(counts: Seq<u64>, class: int)
    requires
        has_logarithm(),
        0 <= class < counts.len(),
        counts[class] > 0,
        forall|i: int| 0 <= i < counts.len() && i != class ==> #[trigger] counts[i] == 0,
    ensures
        entropy_of::<Exact>(counts) == Some(Exact::Finite(0real)),
{
    lemma_total_of_class(counts, class);
    law_entropy_of_uniform_classes(counts, counts[class]);
    lemma_observed_one(counts, class, counts.len());
    lemma_logarithm(1real, 1real);
}

} // verus!
