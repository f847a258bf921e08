//! Named scalar accumulators for one step.

use vstd::prelude::*;

use crate::arith::{Arith, Real};
use crate::welford::{Moments, Welford};

verus! {

/// Whether the `i`th entry goes by a name.
spec fn named<R>(entries: Seq<(String, Welford<R>)>, name: Seq<char>, i: int) -> bool {
    0 <= i < entries.len() && entries[i].0@ == name
}

/// The entries by their names.
spec fn by_name<R>(entries: Seq<(String, Welford<R>)>) -> Map<Seq<char>, Moments<R>> {
    Map::new(
        |name: Seq<char>| exists|i: int| named(entries, name, i),
        |name: Seq<char>| entries[choose|i: int| named(entries, name, i)].1@,
    )
}

/// Whether no two entries go by the same name.
spec fn distinct<R>(entries: Seq<(String, Welford<R>)>) -> bool {
    forall|i: int, j: int|
        0 <= i < entries.len() && 0 <= j < entries.len() && i != j ==> (#[trigger] entries[i]).0@
            != (#[trigger] entries[j]).0@
}

/// What a name stands for is in the one entry of that name.
proof fn lemma_by_name<R>(entries: Seq<(String, Welford<R>)>, i: int)
    requires
        distinct(entries),
        0 <= i < entries.len(),
    ensures
        by_name(entries).contains_key(entries[i].0@),
        by_name(entries)[entries[i].0@] == entries[i].1@,
{
    let name = entries[i].0@;
    assert(named(entries, name, i));
    let c = choose|c: int| named(entries, name, c);
    assert(named(entries, name, c));
    assert(c == i);
}

/// What the strings say.
pub open spec fn texts(strings: Seq<String>) -> Seq<Seq<char>> {
    strings.map_values(|s: String| s@)
}

/// A sample joined to what there is of a signal, which may be nothing.
pub open spec fn sampled<F: Arith>(
    signals: Map<Seq<char>, Moments<F>>,
    name: Seq<char>,
    x: F,
) -> Map<Seq<char>, Moments<F>> {
    signals.insert(
        name,
        if signals.contains_key(name) {
            signals[name].with(x)
        } else {
            Moments::none().with(x)
        },
    )
}

/// Per-signal named accumulators for one step, before consolidation into a slot.
/// A convenience for callers assembling a tick.
#[derive(Debug)]
pub struct StepBuffer<R> {
    scalars: Vec<(String, Welford<R>)>,
}

impl<R> View for StepBuffer<R> {
    type V = Map<Seq<char>, Moments<R>>;

    closed spec fn view(&self) -> Map<Seq<char>, Moments<R>> {
        by_name(self.scalars@)
    }
}

impl<R> StepBuffer<R> {
    /// There is one accumulator per signal.
    pub closed spec fn wf(&self) -> bool {
        distinct(self.scalars@)
    }
}

impl<R: Real> Default for StepBuffer<R> {
    fn default() -> (r: Self)
        ensures
            r.wf(),
            r@ == Map::<Seq<char>, Moments<R>>::empty(),
    {
        let r = StepBuffer { scalars: Vec::new() };
        assert(forall|name: Seq<char>, i: int| !named(r.scalars@, name, i));
        assert(r@ =~= Map::<Seq<char>, Moments<R>>::empty());
        r
    }
}

impl<R: Real> Clone for StepBuffer<R> {
    fn clone(&self) -> (r: Self)
        ensures
            self.wf() ==> r.wf() && r@ == self@,
    {
        let n: usize = self.scalars.len();
        let mut scalars: Vec<(String, Welford<R>)> = Vec::new();
        let mut i: usize = 0;
        while i < n
            invariant
                i <= n == self.scalars.len(),
                scalars@.len() == i,
                forall|t: int|
                    0 <= t < i ==> (#[trigger] scalars@[t]).0@ == self.scalars@[t].0@
                        && scalars@[t].1@ == self.scalars@[t].1@,
            decreases n - i,
        {
            let name: String = self.scalars[i].0.clone();
            scalars.push((name, self.scalars[i].1.clone()));
            i = i + 1;
        }
        let r = StepBuffer { scalars };
        proof {
            let (a, b) = (self.scalars@, r.scalars@);
            assert forall|name: Seq<char>, i: int| #[trigger] named(a, name, i) <==> named(
                b,
                name,
                i,
            ) by {
                if 0 <= i < n {
                    assert(b[i].0@ == a[i].0@);
                }
            }
            if self.wf() {
                assert forall|i: int, j: int| 0 <= i < n && 0 <= j < n && i != j implies (
                #[trigger] b[i]).0@ != (#[trigger] b[j]).0@ by {
                    assert(a[i].0@ != a[j].0@);
                }
                assert forall|name: Seq<char>| #[trigger] by_name(a).contains_key(name) implies
                    by_name(a)[name] == by_name(b)[name] by {
                    let i = choose|i: int| named(a, name, i);
                    lemma_by_name(a, i);
                    assert(named(b, name, i));
                    lemma_by_name(b, i);
                }
                assert forall|name: Seq<char>| #[trigger] by_name(a).contains_key(name)
                    <==> by_name(b).contains_key(name) by {
                    if by_name(a).contains_key(name) {
                        let i = choose|i: int| named(a, name, i);
                        assert(named(b, name, i));
                    }
                    if by_name(b).contains_key(name) {
                        let i = choose|i: int| named(b, name, i);
                        assert(named(a, name, i));
                    }
                }
                assert(by_name(a) =~= by_name(b));
            }
        }
        r
    }
}

impl<R: Real> StepBuffer<R> {
    pub fn new() -> (r: Self)
        ensures
            r.wf(),
            r@ == Map::<Seq<char>, Moments<R>>::empty(),
    {
        Self::default()
    }

    /// The place of a signal's accumulator.
    fn find(&self, signal: &str) -> (r: Option<usize>)
        requires
            self.wf(),
        ensures
            match r {
                Some(i) => i < self.scalars@.len() && self.scalars@[i as int].0@ == signal@
                    && self@.contains_key(signal@) && self@[signal@]
                    == self.scalars@[i as int].1@,
                None => !self@.contains_key(signal@) && forall|i: int|
                    0 <= i < self.scalars@.len() ==> (#[trigger] self.scalars@[i]).0@ != signal@,
            },
    {
        let name: String = signal.to_owned();
        let n: usize = self.scalars.len();
        let mut i: usize = 0;
        while i < n
            invariant
                i <= n == self.scalars.len(),
                self.wf(),
                name@ == signal@,
                forall|t: int| 0 <= t < i ==> (#[trigger] self.scalars@[t]).0@ != signal@,
            decreases n - i,
        {
            if self.scalars[i].0 == name {
                proof {
                    lemma_by_name(self.scalars@, i as int);
                }
                return Some(i);
            }
            i = i + 1;
        }
        assert(forall|t: int| !named(self.scalars@, signal@, t));
        None
    }

    pub fn observe(&mut self, signal: &str, value: R)
        requires
            old(self).wf(),
            old(self)@.contains_key(signal@) ==> old(self)@[signal@].n < u64::MAX,
        ensures
            final(self).wf(),
            final(self)@ == sampled(old(self)@, signal@, value),
    {
        let ghost before = self.scalars@;
        let mut acc: Welford<R> = match self.find(signal) {
            Some(i) => {
                let (_, acc): (String, Welford<R>) = self.scalars.remove(i);
                proof {
                    lemma_removed(before, i as int);
                }
                acc
            },
            None => Welford::new(),
        };
        let ghost rest = self.scalars@;
        acc.push(value);
        let ghost new = acc@;
        let name: String = signal.to_owned();
        self.scalars.push((name, acc));
        proof {
            lemma_pushed(rest, self.scalars@[rest.len() as int]);
            assert(self.scalars@ =~= rest.push(self.scalars@[rest.len() as int]));
            assert(by_name(self.scalars@) =~= by_name(before).insert(signal@, new));
        }
    }

    /// What there is of a signal.
    pub fn get(&self, signal: &str) -> (r: Option<&Welford<R>>)
        requires
            self.wf(),
        ensures
            match r {
                Some(w) => self@.contains_key(signal@) && w@ == self@[signal@],
                None => !self@.contains_key(signal@),
            },
    {
        match self.find(signal) {
            Some(i) => Some(&self.scalars[i].1),
            None => None,
        }
    }

    /// The signals that there is something of, each once.
    pub fn names(&self) -> (r: Vec<String>)
        requires
            self.wf(),
        ensures
            texts(r@).no_duplicates(),
            texts(r@).to_set() == self@.dom(),
            forall|i: int, j: int| 0 <= i < j < r@.len() ==> r@[i]@ != r@[j]@,
            forall|i: int| 0 <= i < r@.len() ==> self@.contains_key((#[trigger] r@[i])@),
            forall|name: Seq<char>| #[trigger]
                self@.contains_key(name) ==> exists|i: int|
                    0 <= i < r@.len() && (#[trigger] r@[i])@ == name,
    {
        let n: usize = self.scalars.len();
        let mut r: Vec<String> = Vec::new();
        let mut i: usize = 0;
        while i < n
            invariant
                i <= n == self.scalars.len(),
                r@.len() == i,
                forall|t: int| 0 <= t < i ==> (#[trigger] r@[t])@ == self.scalars@[t].0@,
            decreases n - i,
        {
            r.push(self.scalars[i].0.clone());
            i = i + 1;
        }
        proof {
            let entries = self.scalars@;
            let names = texts(r@);
            assert forall|s: int, t: int|
                0 <= s < names.len() && 0 <= t < names.len() && s != t implies names[s]
                != names[t] by {
                assert(entries[s].0@ != entries[t].0@);
            }
            assert forall|name: Seq<char>| names.to_set().contains(name) <==> self@.dom().contains(
                name,
            ) by {
                if names.contains(name) {
                    let t = choose|t: int| 0 <= t < names.len() && names[t] == name;
                    assert(named(entries, name, t));
                }
                if self@.dom().contains(name) {
                    let t = choose|t: int| named(entries, name, t);
                    assert(names[t] == name);
                }
            }
            assert(names.to_set() =~= self@.dom());
            assert forall|name: Seq<char>| #[trigger] self@.contains_key(name) implies exists|
                i: int,
            |
                0 <= i < r@.len() && (#[trigger] r@[i])@ == name by {
                let t = choose|t: int| named(entries, name, t);
                assert(r@[t]@ == name);
            }
            assert forall|i: int| 0 <= i < r@.len() implies self@.contains_key(
                (#[trigger] r@[i])@,
            ) by {
                assert(named(entries, r@[i]@, i));
            }
        }
        r
    }

    pub fn take(&mut self, signal: &str) -> (r: Option<Welford<R>>)
        requires
            old(self).wf(),
        ensures
            final(self).wf(),
            final(self)@ == old(self)@.remove(signal@),
            match r {
                Some(w) => old(self)@.contains_key(signal@) && w@ == old(self)@[signal@],
                None => !old(self)@.contains_key(signal@),
            },
    {
        let ghost before = self.scalars@;
        match self.find(signal) {
            Some(i) => {
                let (_, acc): (String, Welford<R>) = self.scalars.remove(i);
                proof {
                    lemma_removed(before, i as int);
                }
                Some(acc)
            },
            None => {
                assert(self@.remove(signal@) =~= self@);
                None
            },
        }
    }
}

/// Without an entry, its name stands for nothing.
proof fn lemma_removed<R>(entries: Seq<(String, Welford<R>)>, i: int)
    requires
        distinct(entries),
        0 <= i < entries.len(),
    ensures
        distinct(entries.remove(i)),
        by_name(entries.remove(i)) == by_name(entries).remove(entries[i].0@),
        !by_name(entries.remove(i)).contains_key(entries[i].0@),
{
    let name = entries[i].0@;
    let rest = entries.remove(i);
    assert forall|s: int, t: int| 0 <= s < rest.len() && 0 <= t < rest.len() && s != t implies (
    #[trigger] rest[s]).0@ != (#[trigger] rest[t]).0@ by {
        let u = if s < i {
            s
        } else {
            s + 1
        };
        let v = if t < i {
            t
        } else {
            t + 1
        };
        assert(entries[u].0@ != entries[v].0@);
    }
    assert forall|n: Seq<char>| #[trigger] by_name(rest).contains_key(n) <==> (by_name(
        entries,
    ).contains_key(n) && n != name) by {
        if by_name(rest).contains_key(n) {
            let t = choose|t: int| named(rest, n, t);
            let v = if t < i {
                t
            } else {
                t + 1
            };
            assert(named(entries, n, v));
            assert(entries[v].0@ != entries[i].0@);
        }
        if by_name(entries).contains_key(n) && n != name {
            let v = choose|v: int| named(entries, n, v);
            let t = if v < i {
                v
            } else {
                v - 1
            };
            assert(named(rest, n, t));
        }
    }
    assert forall|n: Seq<char>| #[trigger] by_name(rest).contains_key(n) implies by_name(rest)[n]
        == by_name(entries)[n] by {
        let t = choose|t: int| named(rest, n, t);
        let v = if t < i {
            t
        } else {
            t + 1
        };
        lemma_by_name(rest, t);
        lemma_by_name(entries, v);
    }
    assert(by_name(rest) =~= by_name(entries).remove(name));
}

/// One more entry, under a name that stood for nothing.
proof fn lemma_pushed<R>(entries: Seq<(String, Welford<R>)>, entry: (String, Welford<R>))
    requires
        distinct(entries),
        !by_name(entries).contains_key(entry.0@),
    ensures
        distinct(entries.push(entry)),
        by_name(entries.push(entry)) == by_name(entries).insert(entry.0@, entry.1@),
{
    let more = entries.push(entry);
    let last = entries.len() as int;
    assert forall|s: int, t: int| 0 <= s < more.len() && 0 <= t < more.len() && s != t implies (
    #[trigger] more[s]).0@ != (#[trigger] more[t]).0@ by {
        if s == last {
            assert(!named(entries, entry.0@, t));
        } else if t == last {
            assert(!named(entries, entry.0@, s));
        }
    }
    lemma_by_name(more, last);
    assert forall|n: Seq<char>| #[trigger] by_name(more).contains_key(n) <==> (by_name(
        entries,
    ).contains_key(n) || n == entry.0@) by {
        if by_name(more).contains_key(n) && n != entry.0@ {
            let t = choose|t: int| named(more, n, t);
            assert(named(entries, n, t));
        }
        if by_name(entries).contains_key(n) {
            let t = choose|t: int| named(entries, n, t);
            assert(named(more, n, t));
        }
    }
    assert forall|n: Seq<char>| #[trigger] by_name(entries).contains_key(n) implies by_name(more)[n]
        == by_name(entries)[n] by {
        let t = choose|t: int| named(entries, n, t);
        lemma_by_name(entries, t);
        lemma_by_name(more, t);
    }
    assert(by_name(more) =~= by_name(entries).insert(entry.0@, entry.1@));
}

} // verus!
