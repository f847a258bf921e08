//! Counters over a fixed set of classes.

use vstd::prelude::*;

use crate::arith::{Arith, Real};

verus! {

/// A counter per class, all at zero.
pub open spec fn no_counts(classes: nat) -> Seq<u64> {
    Seq::new(classes, |i: int| 0u64)
}

/// One more observation of `class`.
pub open spec fn counted(counts: Seq<u64>, class: int) -> Seq<u64> {
    counts.update(class, (counts[class] + 1) as u64)
}

/// Two sets of counters over the same classes, added class by class.
pub open spec fn counts_joined(a: Seq<u64>, b: Seq<u64>) -> Seq<u64> {
    Seq::new(a.len(), |i: int| (a[i] + b[i]) as u64)
}

/// Whether the counters add up class by class without passing the largest count.
pub open spec fn counts_addable(a: Seq<u64>, b: Seq<u64>) -> bool {
    a.len() == b.len() && forall|i: int|
        0 <= i < a.len() ==> #[trigger] a[i] + #[trigger] b[i] <= u64::MAX
}

/// All observations, over every class.
pub open spec fn counts_total(counts: Seq<u64>) -> nat
    decreases counts.len(),
{
    if counts.len() == 0 {
        0
    } else {
        counts_total(counts.drop_last()) + counts.last() as nat
    }
}

/// Whether `class` was observed, no class more often, and no earlier class as
/// often.
pub open spec fn is_dominant(counts: Seq<u64>, class: int) -> bool {
    &&& 0 <= class < counts.len()
    &&& counts[class] > 0
    &&& forall|j: int| 0 <= j < counts.len() ==> #[trigger] counts[j] <= counts[class]
    &&& forall|j: int| 0 <= j < class ==> #[trigger] counts[j] < counts[class]
}

/// The dominant class, where anything was observed.
pub open spec fn dominant_of(counts: Seq<u64>) -> Option<usize> {
    if exists|c: usize| is_dominant(counts, c as int) {
        Some(choose|c: usize| is_dominant(counts, c as int))
    } else {
        None
    }
}

/// The entropy over the first `upto` classes: for each observed class the share
/// of it times the logarithm of the share is taken off, in class order.
pub open spec fn entropy_over<R: Arith>(counts: Seq<u64>, upto: nat) -> R
    decreases upto,
{
    if upto == 0 {
        R::of_nat(0)
    } else {
        let rest = entropy_over::<R>(counts, (upto - 1) as nat);
        let c = counts[upto - 1];
        if c > 0 {
            let p = R::of_nat(c as nat).quot(R::of_nat(counts_total(counts)));
            rest.diff(p.prod(p.log()))
        } else {
            rest
        }
    }
}

/// Shannon entropy in nats, where anything was observed.
pub open spec fn entropy_of<R: Arith>(counts: Seq<u64>) -> Option<R> {
    if counts_total(counts) == 0 {
        None
    } else {
        Some(entropy_over::<R>(counts, counts.len()))
    }
}

/// Counts over a fixed set of declared classes.
///
/// Counter vectors add, so the dominant class and the entropy survive
/// consolidation exactly.
#[derive(Debug, PartialEq)]
pub struct Categorical {
    counts: Vec<u64>,
}

impl View for Categorical {
    type V = Seq<u64>;

    closed spec fn view(&self) -> Seq<u64> {
        self.counts@
    }
}

impl Clone for Categorical {
    fn clone(&self) -> (r: Self)
        ensures
            r@ == self@,
    {
        let counts: Vec<u64> = self.counts.clone();
        assert(counts@ =~= self.counts@);
        Categorical { counts }
    }
}

impl Categorical {
    pub fn new(classes: usize) -> (r: Self)
        ensures
            r@ == no_counts(classes as nat),
    {
        let mut counts: Vec<u64> = Vec::new();
        let mut i: usize = 0;
        while i < classes
            invariant
                i <= classes,
                counts@ == no_counts(i as nat),
            decreases classes - i,
        {
            counts.push(0);
            i = i + 1;
            assert(counts@ =~= no_counts(i as nat));
        }
        Categorical { counts }
    }

    pub fn push(&mut self, class: usize)
        requires
            class < old(self)@.len(),
            old(self)@[class as int] < u64::MAX,
        ensures
            final(self)@ == counted(old(self)@, class as int),
    {
        let c: u64 = self.counts[class];
        self.counts.set(class, c + 1);
    }

    /// Merges another accumulator over the same class set.
    pub fn merge(&mut self, other: &Categorical)
        requires
            counts_addable(old(self)@, other@),
        ensures
            final(self)@ == counts_joined(old(self)@, other@),
    {
        let n: usize = self.counts.len();
        let ghost before = self.counts@;
        let mut i: usize = 0;
        while i < n
            invariant
                i <= n == self.counts.len(),
                n == before.len(),
                counts_addable(before, other.counts@),
                forall|j: int| 0 <= j < i ==> self.counts@[j] == before[j] + other.counts@[j],
                forall|j: int| i <= j < n ==> self.counts@[j] == before[j],
            decreases n - i,
        {
            assert(before[i as int] + other.counts@[i as int] <= u64::MAX);
            let c: u64 = self.counts[i] + other.counts[i];
            self.counts.set(i, c);
            i = i + 1;
        }
        assert(self.counts@ =~= counts_joined(before, other.counts@));
    }

    /// Whether another accumulator is over the same class set, and can be merged without
    /// a counter passing what can be counted.
    pub fn can_merge(&self, other: &Categorical) -> (r: bool)
        ensures
            r == counts_addable(self@, other@),
    {
        let n: usize = self.counts.len();
        if other.counts.len() != n {
            return false;
        }
        let mut i: usize = 0;
        while i < n
            invariant
                i <= n == self.counts.len() == other.counts.len(),
                forall|j: int|
                    0 <= j < i ==> #[trigger] self.counts@[j] + #[trigger] other.counts@[j]
                        <= u64::MAX,
            decreases n - i,
        {
            if self.counts[i] > u64::MAX - other.counts[i] {
                return false;
            }
            i = i + 1;
        }
        true
    }

    /// All observations, where they can be counted.
    pub fn checked_total(&self) -> (r: Option<u64>)
        ensures
            match r {
                Some(n) => n == counts_total(self@),
                None => counts_total(self@) > u64::MAX,
            },
    {
        let n: usize = self.counts.len();
        let mut sum: u64 = 0;
        let mut i: usize = 0;
        while i < n
            invariant
                i <= n == self.counts.len(),
                sum == counts_total(self.counts@.take(i as int)),
            decreases n - i,
        {
            proof {
                lemma_total_of_prefix(self.counts@, i + 1);
                assert(self.counts@.take(i + 1).drop_last() =~= self.counts@.take(i as int));
            }
            sum = match sum.checked_add(self.counts[i]) {
                Some(s) => s,
                None => {
                    return None;
                },
            };
            i = i + 1;
        }
        assert(self.counts@.take(n as int) =~= self.counts@);
        Some(sum)
    }

    pub fn total(&self) -> (r: u64)
        requires
            counts_total(self@) <= u64::MAX,
        ensures
            r == counts_total(self@),
    {
        let n: usize = self.counts.len();
        let mut sum: u64 = 0;
        let mut i: usize = 0;
        while i < n
            invariant
                i <= n == self.counts.len(),
                sum == counts_total(self.counts@.take(i as int)),
                counts_total(self.counts@) <= u64::MAX,
            decreases n - i,
        {
            proof {
                lemma_total_of_prefix(self.counts@, i + 1);
                assert(self.counts@.take(i + 1).drop_last() =~= self.counts@.take(i as int));
            }
            sum = sum + self.counts[i];
            i = i + 1;
        }
        assert(self.counts@.take(n as int) =~= self.counts@);
        sum
    }

    pub fn counts(&self) -> (r: &[u64])
        ensures
            r@ == self@,
    {
        self.counts.as_slice()
    }

    /// The most frequent class, or `None` if nothing was observed. Ties resolve
    /// to the lowest class index so the result is deterministic.
    pub fn dominant(&self) -> (r: Option<usize>)
        ensures
            r == dominant_of(self@),
            match r {
                Some(class) => is_dominant(self@, class as int),
                None => forall|i: int| 0 <= i < self@.len() ==> self@[i] == 0,
            },
    {
        let n: usize = self.counts.len();
        let mut best: Option<usize> = None;
        let mut i: usize = 0;
        while i < n
            invariant
                i <= n == self.counts.len(),
                match best {
                    Some(b) => b < i && is_dominant(self.counts@.take(i as int), b as int),
                    None => forall|j: int| 0 <= j < i ==> self.counts@[j] == 0,
                },
            decreases n - i,
        {
            let c: u64 = self.counts[i];
            let ghost seen = self.counts@.take(i as int);
            let ghost next = self.counts@.take(i + 1);
            proof {
                assert forall|j: int| 0 <= j < i implies next[j] == seen[j] by {}
                assert(next[i as int] == c);
                assert(forall|j: int| 0 <= j < i ==> #[trigger] seen[j] == self.counts@[j]);
            }
            match best {
                Some(b) => {
                    if c > self.counts[b] {
                        best = Some(i);
                    }
                },
                None => {
                    if c > 0 {
                        best = Some(i);
                    }
                },
            }
            i = i + 1;
        }
        proof {
            assert(self.counts@.take(n as int) =~= self.counts@);
            match best {
                Some(b) => {
                    assert(is_dominant(self.counts@, b as int));
                    lemma_dominant_unique(self.counts@, b);
                },
                None => {},
            }
        }
        best
    }

    /// Shannon entropy in nats. Zero when one class holds everything, `ln(k)`
    /// when the k observed classes are uniform.
    pub fn entropy<R: Real>(&self) -> (r: Option<R>)
        requires
            counts_total(self@) <= u64::MAX,
        ensures
            r == entropy_of::<R>(self@),
    {
        let total: u64 = self.total();
        if total == 0 {
            return None;
        }
        let whole = R::from_count(total);
        let n: usize = self.counts.len();
        let mut h = R::from_count(0);
        let mut i: usize = 0;
        while i < n
            invariant
                i <= n == self.counts.len(),
                whole == R::of_nat(counts_total(self.counts@)),
                h == entropy_over::<R>(self.counts@, i as nat),
            decreases n - i,
        {
            let c: u64 = self.counts[i];
            if c > 0 {
                let p = R::from_count(c).over(whole);
                h = h.minus(p.times(p.ln()));
            }
            i = i + 1;
        }
        Some(h)
    }
}

proof fn lemma_dominant_unique(counts: Seq<u64>, class: usize)
    requires
        is_dominant(counts, class as int),
    ensures
        dominant_of(counts) == Some(class),
{
    let c = choose|c: usize| is_dominant(counts, c as int);
    assert(is_dominant(counts, c as int));
    if c < class {
        assert(counts[c as int] < counts[class as int]);
    } else if class < c {
        assert(counts[class as int] < counts[c as int]);
    }
}

/// A prefix holds no more observations than the whole.
pub proof fn lemma_total_of_prefix(counts: Seq<u64>, upto: int)
    requires
        0 <= upto <= counts.len(),
    ensures
        counts_total(counts.take(upto)) <= counts_total(counts),
    decreases counts.len(),
{
    if upto == counts.len() {
        assert(counts.take(upto) =~= counts);
    } else {
        lemma_total_of_prefix(counts.drop_last(), upto);
        assert(counts.drop_last().take(upto) =~= counts.take(upto));
    }
}

/// A class holds no more observations than all classes.
pub proof fn lemma_total_of_class(counts: Seq<u64>, class: int)
    requires
        0 <= class < counts.len(),
    ensures
        counts[class] <= counts_total(counts),
    decreases counts.len(),
{
    if class < counts.len() - 1 {
        lemma_total_of_class(counts.drop_last(), class);
    }
}

/// Counters whose totals can be counted together can be added class by class.
pub proof fn lemma_addable_within(a: Seq<u64>, b: Seq<u64>)
    requires
        a.len() == b.len(),
        counts_total(a) + counts_total(b) <= u64::MAX,
    ensures
        counts_addable(a, b),
{
    assert forall|i: int| 0 <= i < a.len() implies #[trigger] a[i] + #[trigger] b[i]
        <= u64::MAX by {
        lemma_total_of_class(a, i);
        lemma_total_of_class(b, i);
    }
}

/// Adding counters adds their totals.
pub proof fn lemma_total_of_joined(a: Seq<u64>, b: Seq<u64>)
    requires
        counts_addable(a, b),
    ensures
        counts_total(counts_joined(a, b)) == counts_total(a) + counts_total(b),
    decreases a.len(),
{
    if a.len() > 0 {
        let (x, y) = (a.drop_last(), b.drop_last());
        assert forall|i: int| 0 <= i < x.len() implies #[trigger] x[i] + #[trigger] y[i]
            <= u64::MAX by {
            assert(a[i] + b[i] <= u64::MAX);
        }
        lemma_total_of_joined(x, y);
        assert(counts_joined(a, b).drop_last() =~= counts_joined(x, y));
        assert(a.last() + b.last() <= u64::MAX);
    }
}

/// One more observation of a class is one more in all.
pub proof fn lemma_total_of_counted(counts: Seq<u64>, class: int)
    requires
        0 <= class < counts.len(),
        counts[class] < u64::MAX,
    ensures
        counts_total(counted(counts, class)) == counts_total(counts) + 1,
    decreases counts.len(),
{
    let after = counted(counts, class);
    if class == counts.len() - 1 {
        assert(after.drop_last() =~= counts.drop_last());
    } else {
        lemma_total_of_counted(counts.drop_last(), class);
        assert(after.drop_last() =~= counted(counts.drop_last(), class));
    }
}

/// Fresh counters have counted nothing.
pub proof fn lemma_total_of_none(classes: nat)
    ensures
        counts_total(no_counts(classes)) == 0,
    decreases classes,
{
    if classes > 0 {
        lemma_total_of_none((classes - 1) as nat);
        assert(no_counts(classes).drop_last() =~= no_counts((classes - 1) as nat));
    }
}

} // verus!
