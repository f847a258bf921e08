//! The resolutions a reader may see.

use std::collections::BTreeSet;

use vstd::laws_cmp::{
    obeys_cmp, obeys_cmp_ord, obeys_cmp_partial_ord, obeys_partial_cmp_spec_properties,
};
use vstd::laws_eq::obeys_eq_spec_properties;
use vstd::prelude::*;
use vstd::std_specs::btree::increasing_seq;
use vstd::std_specs::cmp::OrdSpec;
use vstd::std_specs::iter::IteratorSpec;

use crate::arith::Real;
use crate::decl::Declaration;

verus! {

/// The resolutions a reader may see.
///
/// Empty by default. A reader with no grant reads nothing, which is the same
/// default-deny posture the rest of the system takes toward content arriving
/// from elsewhere.
#[derive(Debug, PartialEq, Eq)]
pub struct Grant {
    resolutions: BTreeSet<u64>,
}

impl View for Grant {
    type V = Set<u64>;

    closed spec fn view(&self) -> Set<u64> {
        self.resolutions@
    }
}

/// Strictly ascending.
pub open spec fn ascends(s: Seq<u64>) -> bool {
    forall|i: int, j: int| 0 <= i < j < s.len() ==> s[i] < s[j]
}

/// The members of `set`, ascending.
pub open spec fn lists(s: Seq<u64>, set: Set<u64>) -> bool {
    &&& ascends(s)
    &&& forall|r: u64| s.contains(r) <==> set.contains(r)
}

/// References to integers are ordered as the integers are.
proof fn lemma_references_obey_order()
    ensures
        obeys_cmp::<&u64>(),
{
    reveal(obeys_eq_spec_properties);
    reveal(obeys_partial_cmp_spec_properties);
    reveal(obeys_cmp_partial_ord);
    reveal(obeys_cmp_ord);
}

/// What one more item adds to a prefix.
pub(crate) proof fn lemma_contains_push(s: Seq<u64>, i: int)
    requires
        0 <= i < s.len(),
    ensures
        forall|x: u64| #[trigger]
            s.take(i + 1).contains(x) <==> s.take(i).contains(x) || x == s[i],
{
    let (was, now) = (s.take(i), s.take(i + 1));
    assert forall|x: u64| #[trigger] now.contains(x) <==> was.contains(x) || x == s[i] by {
        if was.contains(x) {
            let t = choose|t: int| 0 <= t < was.len() && was[t] == x;
            assert(now[t] == x);
        }
        if x == s[i] {
            assert(now[i] == x);
        }
    }
}

/// The members of a set, ascending.
pub(crate) fn in_order(set: &BTreeSet<u64>) -> (r: Vec<u64>)
    ensures
        lists(r@, set@),
{
    let ghost keys: Seq<&u64> = set.iter().remaining();
    let mut out: Vec<u64> = Vec::new();
    for x in it: set.iter()
        invariant
            it.seq() == keys,
            out@ == keys.take(it.index()).unref(),
    {
        out.push(*x);
        assert(out@ =~= keys.take(it.index() + 1).unref());
    }
    assert(out@ =~= keys.unref());
    assert(keys.unref().to_set() == set@);
    assert(increasing_seq(keys));
    proof {
        lemma_references_obey_order();
    }
    assert forall|i: int, j: int| 0 <= i < j < out@.len() implies out@[i] < out@[j] by {
        assert(OrdSpec::cmp_spec(&keys[i], &keys[j]) is Less);
    }
    out
}

impl Clone for Grant {
    fn clone(&self) -> (r: Self)
        ensures
            r@ == self@,
    {
        Grant { resolutions: self.resolutions.clone() }
    }
}

impl Default for Grant {
    fn default() -> (r: Self)
        ensures
            r@ == Set::<u64>::empty(),
    {
        Grant { resolutions: BTreeSet::new() }
    }
}

impl Grant {
    /// Grants nothing.
    pub fn none() -> (r: Self)
        ensures
            r@ == Set::<u64>::empty(),
    {
        Grant::default()
    }

    pub fn allow(self, resolution_secs: u64) -> (r: Self)
        ensures
            r@ == self@.insert(resolution_secs),
    {
        let mut resolutions: BTreeSet<u64> = self.resolutions;
        resolutions.insert(resolution_secs);
        Grant { resolutions }
    }

    /// Grants every declared resolution at or above `resolution_secs` — the
    /// common shape, where a reader is trusted with trends but not with the
    /// detail underneath them.
    pub fn coarser_than<R: Real>(decl: &Declaration<R>, resolution_secs: u64) -> (r: Self)
        requires
            decl@.resolvable(),
        ensures
            forall|x: u64|
                r@.contains(x) <==> decl@.offers(x) && x >= resolution_secs,
    {
        let offered: Vec<u64> = decl.resolutions();
        let n: usize = offered.len();
        let mut resolutions: BTreeSet<u64> = BTreeSet::new();
        let mut i: usize = 0;
        while i < n
            invariant
                i <= n == offered.len(),
                forall|x: u64| #[trigger]
                    resolutions@.contains(x) <==> offered@.take(i as int).contains(x) && x
                        >= resolution_secs,
            decreases n - i,
        {
            let r: u64 = offered[i];
            if r >= resolution_secs {
                resolutions.insert(r);
            }
            proof {
                lemma_contains_push(offered@, i as int);
            }
            i = i + 1;
        }
        assert(offered@.take(n as int) =~= offered@);
        Grant { resolutions }
    }

    /// Grants everything the declaration offers.
    pub fn all<R: Real>(decl: &Declaration<R>) -> (r: Self)
        requires
            decl@.resolvable(),
        ensures
            forall|x: u64| r@.contains(x) <==> decl@.offers(x),
    {
        Grant::coarser_than(decl, 0)
    }

    pub fn permits(&self, resolution_secs: u64) -> (r: bool)
        ensures
            r == self@.contains(resolution_secs),
    {
        self.resolutions.contains(&resolution_secs)
    }

    pub fn granted(&self) -> (r: Vec<u64>)
        ensures
            lists(r@, self@),
            forall|i: int, j: int| 0 <= i < j < r@.len() ==> r@[i] < r@[j],
            forall|x: u64| r@.contains(x) <==> self@.contains(x),
    {
        in_order(&self.resolutions)
    }

    pub fn is_empty(&self) -> (r: bool)
        ensures
            r == (self@ == Set::<u64>::empty()),
    {
        self.resolutions.is_empty()
    }
}

/// Why a read was not answered.
#[derive(Clone, Debug, PartialEq, Eq)]
pub enum Refusal {
    UnknownSignal(String),
    /// The resolution exists in the declaration but is not granted to this
    /// reader.
    NotGranted { requested: u64, granted: Vec<u64> },
    /// The declaration does not offer this resolution for this signal at all.
    NotDeclared { requested: u64, offered: Vec<u64> },
    WrongKind { signal: String },
}

} // verus!
