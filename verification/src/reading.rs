//! What a reader gets.

use vstd::prelude::*;

use crate::arith::{Arith, Real};
use crate::categorical::{dominant_of, entropy_of};
use crate::ladder::Tier;
use crate::ring::{count_of, folded};
use crate::slot::Summary;
use crate::vector::Cloud;

verus! {

/// How far `now` sits from a baseline, in baseline standard deviations; unanswered
/// where the baseline has no spread.
pub open spec fn deviation<F: Arith>(now: F, mean: F, variance: F) -> Option<F> {
    if F::of_nat(0).lt(variance.root()) {
        Some(now.diff(mean).quot(variance.root()))
    } else {
        None
    }
}

fn deviation_of<R: Real>(now: R, mean: R, variance: R) -> (r: Option<R>)
    ensures
        r == deviation(now, mean, variance),
{
    let sd = variance.sqrt();
    if R::from_count(0).less(sd) {
        Some(now.minus(mean).over(sd))
    } else {
        None
    }
}

/// The mean of a scalar slot.
pub open spec fn scalar_mean_of<F: Arith>(slot: Option<Summary<F>>) -> Option<F> {
    match slot {
        Some(Summary::Scalar(m)) => m.mean_of(),
        _ => None,
    }
}

/// The vectors behind a slot of a vector kind, as one cloud.
pub open spec fn cloud_of<F: Arith>(slot: Option<Summary<F>>) -> Option<Cloud<F>> {
    match slot {
        Some(Summary::Vector(v)) => Some(v),
        Some(Summary::Clusters(b)) => Some(b.total_of()),
        _ => None,
    }
}

/// The centroid behind a slot of a vector kind.
pub open spec fn center_of<F: Arith>(slot: Option<Summary<F>>) -> Option<Seq<F>> {
    match cloud_of(slot) {
        Some(v) => v.centroid_of(),
        None => None,
    }
}

/// One archive's answer, in full.
#[verifier::ext_equal]
pub struct Pane<F> {
    pub resolution_secs: nat,
    pub span_secs: nat,
    pub mean: Option<F>,
    pub min: Option<F>,
    pub max: Option<F>,
    pub variance: Option<F>,
    pub counts: Option<Seq<u64>>,
    pub dominant: Option<usize>,
    pub entropy: Option<F>,
    pub spread: Option<F>,
    pub drift: Option<F>,
    pub observations: nat,
    pub unknown: bool,
}

impl<F: Arith> Tier<F> {
    /// What the retained slots read as at a resolution, with the drift measured
    /// from `baseline`, where there is one.
    pub open spec fn pane(self, resolution_secs: nat, baseline: Option<Seq<F>>) -> Pane<F> {
        let all = folded(self.ring.slots);
        Pane {
            resolution_secs,
            span_secs: resolution_secs * self.ring.slots.len(),
            mean: match all {
                Some(Summary::Scalar(m)) => m.mean_of(),
                _ => None,
            },
            min: match all {
                Some(Summary::Scalar(m)) => m.min_of(),
                _ => None,
            },
            max: match all {
                Some(Summary::Scalar(m)) => m.max_of(),
                _ => None,
            },
            variance: match all {
                Some(Summary::Scalar(m)) => m.variance_of(),
                _ => None,
            },
            counts: match all {
                Some(Summary::Categorical(c)) => Some(c),
                _ => None,
            },
            dominant: match all {
                Some(Summary::Categorical(c)) => dominant_of(c),
                _ => None,
            },
            entropy: match all {
                Some(Summary::Categorical(c)) => entropy_of(c),
                _ => None,
            },
            spread: match cloud_of(all) {
                Some(v) => v.variance_of(),
                None => None,
            },
            drift: match (cloud_of(all), baseline) {
                (Some(v), Some(b)) => v.drift_of(b),
                _ => None,
            },
            observations: count_of(all),
            unknown: self.ring.sparse(self.spec.xff),
        }
    }
}

/// What a reader gets, in full.
#[verifier::ext_equal]
pub struct Report<F> {
    pub signal: Seq<char>,
    pub now: Option<F>,
    pub windows: Seq<Pane<F>>,
    pub withheld: Seq<u64>,
}

/// A signal as a reader with a grant sees it.
#[verifier::ext_equal]
pub struct Outlook<F> {
    pub step_secs: nat,
    pub tiers: Seq<Tier<F>>,
    pub grant: Set<u64>,
}

impl<F: Arith> Outlook<F> {
    /// The resolution of the `i`th archive.
    pub open spec fn resolution(self, i: int) -> nat {
        self.tiers[i].spec.steps_per_slot as nat * self.step_secs
    }

    /// Whether some archive has the resolution.
    pub open spec fn offers(self, resolution_secs: nat) -> bool {
        exists|j: int|
            0 <= j < self.tiers.len() && #[trigger] self.resolution(j) == resolution_secs
    }

    pub open spec fn permitted(self, i: int) -> bool {
        self.grant.contains(self.resolution(i) as u64)
    }

    /// Whether `i` is the coarsest permitted archive.
    pub open spec fn is_baseline(self, i: int) -> bool {
        &&& 0 <= i < self.tiers.len()
        &&& self.permitted(i)
        &&& forall|j: int| i < j < self.tiers.len() ==> !#[trigger] self.permitted(j)
    }

    /// The centroid that drift at the `i`th archive is measured from: that of the
    /// coarsest permitted archive, unless it is the `i`th itself.
    pub open spec fn baseline(self, i: int) -> Option<Seq<F>> {
        if exists|b: int| self.is_baseline(b) && b > i {
            let b = choose|b: int| self.is_baseline(b) && b > i;
            center_of(folded(self.tiers[b].ring.slots))
        } else {
            None
        }
    }

    /// What the `i`th archive reads as.
    pub open spec fn pane(self, i: int) -> Pane<F> {
        self.tiers[i].pane(self.resolution(i), self.baseline(i))
    }

    /// The permitted archives among the first `upto`, finest first.
    pub open spec fn windows(self, upto: nat) -> Seq<Pane<F>>
        decreases upto,
    {
        if upto == 0 {
            Seq::empty()
        } else {
            let before = self.windows((upto - 1) as nat);
            if self.permitted(upto - 1) {
                before.push(self.pane(upto - 1))
            } else {
                before
            }
        }
    }

    /// The resolutions of the others among the first `upto`, finest first.
    pub open spec fn withheld(self, upto: nat) -> Seq<u64>
        decreases upto,
    {
        if upto == 0 {
            Seq::empty()
        } else {
            let before = self.withheld((upto - 1) as nat);
            if self.permitted(upto - 1) {
                before
            } else {
                before.push(self.resolution(upto - 1) as u64)
            }
        }
    }

    /// The newest value of the finest archive, if that one is permitted.
    pub open spec fn now(self) -> Option<F> {
        if self.permitted(0) {
            scalar_mean_of(self.tiers[0].ring.newest_of())
        } else {
            None
        }
    }

    pub open spec fn report(self, signal: Seq<char>) -> Report<F> {
        Report {
            signal,
            now: self.now(),
            windows: self.windows(self.tiers.len()),
            withheld: self.withheld(self.tiers.len()),
        }
    }

    /// Whether the resolutions, and the spans that the permitted archives cover,
    /// can be given in seconds.
    pub open spec fn in_range(self) -> bool {
        forall|i: int|
            0 <= i < self.tiers.len() ==> {
                &&& #[trigger] self.resolution(i) <= u64::MAX
                &&& self.permitted(i) ==> self.resolution(i) * self.tiers[i].ring.slots.len()
                    <= u64::MAX
            }
    }
}

/// One archive's answer.
#[derive(Clone, Debug, PartialEq)]
pub struct Window<R> {
    pub resolution_secs: u64,
    /// The span the retained slots cover — resolution × retained slots.
    pub span_secs: u64,
    /// For a scalar signal, as are the next three.
    pub mean: Option<R>,
    pub min: Option<R>,
    pub max: Option<R>,
    pub variance: Option<R>,
    /// For a categorical signal, the observations of each class.
    pub counts: Option<Vec<u64>>,
    /// For a categorical signal, the most frequent class.
    pub dominant: Option<usize>,
    /// For a categorical signal, in nats.
    pub entropy: Option<R>,
    /// For a vector signal, the mean squared deviation from the centroid.
    pub spread: Option<R>,
    /// For a vector signal, how far the centroid is from that of the coarsest
    /// permitted window. Absent on that window itself.
    pub drift: Option<R>,
    /// Constituent observations behind the retained slots.
    pub observations: u64,
    /// True when too few of the retained slots carry data, per the archive's
    /// declared `xff`. Distinct from a mean of zero.
    pub unknown: bool,
}

impl<R> View for Window<R> {
    type V = Pane<R>;

    open spec fn view(&self) -> Pane<R> {
        Pane {
            resolution_secs: self.resolution_secs as nat,
            span_secs: self.span_secs as nat,
            mean: self.mean,
            min: self.min,
            max: self.max,
            variance: self.variance,
            counts: match self.counts {
                Some(c) => Some(c@),
                None => None,
            },
            dominant: self.dominant,
            entropy: self.entropy,
            spread: self.spread,
            drift: self.drift,
            observations: self.observations as nat,
            unknown: self.unknown,
        }
    }
}

/// What a reader gets: the permitted resolutions, and an explicit note of the
/// declared ones that were withheld.
///
/// Withheld resolutions are named but never valued. The declaration is not
/// secret — a reader is entitled to know a store keeps per-second data — and
/// naming them is what makes the refusal legible instead of looking like an
/// absence of data.
#[derive(Clone, Debug, PartialEq)]
pub struct Reading<R> {
    pub signal: String,
    /// The latest finest-resolution value, and therefore gated on the finest
    /// resolution being granted. A reader denied per-second history is not
    /// handed the current per-second sample through a different door.
    pub now: Option<R>,
    pub windows: Vec<Window<R>>,
    pub withheld: Vec<u64>,
}

/// What a list of windows says.
pub open spec fn panes<R>(windows: Seq<Window<R>>) -> Seq<Pane<R>> {
    windows.map_values(|w: Window<R>| w@)
}

impl<R> View for Reading<R> {
    type V = Report<R>;

    open spec fn view(&self) -> Report<R> {
        Report {
            signal: self.signal@,
            now: self.now,
            windows: panes(self.windows@),
            withheld: self.withheld@,
        }
    }
}

impl<F: Arith> Report<F> {
    /// Whether `i` is the first window at that resolution.
    pub open spec fn is_window(self, resolution_secs: nat, i: int) -> bool {
        &&& 0 <= i < self.windows.len()
        &&& self.windows[i].resolution_secs == resolution_secs
        &&& forall|j: int|
            0 <= j < i ==> (#[trigger] self.windows[j]).resolution_secs != resolution_secs
    }

    /// How far the current value sits from the coarsest window, in that window's
    /// standard deviations.
    pub open spec fn sigma_of(self) -> Option<F> {
        if self.now is Some && self.windows.len() > 0 && self.windows.last().mean is Some
            && self.windows.last().variance is Some {
            deviation(
                self.now->0,
                self.windows.last().mean->0,
                self.windows.last().variance->0,
            )
        } else {
            None
        }
    }
}

impl<R: Real> Reading<R> {
    pub fn window(&self, resolution_secs: u64) -> (r: Option<&Window<R>>)
        ensures
            match r {
                Some(w) => exists|i: int|
                    self@.is_window(resolution_secs as nat, i) && w@ == self@.windows[i],
                None => forall|i: int|
                    0 <= i < self@.windows.len() ==> (
                    #[trigger] self@.windows[i]).resolution_secs != resolution_secs,
            },
            match r {
                Some(w) => w.resolution_secs == resolution_secs && exists|i: int|
                    0 <= i < self.windows@.len() && #[trigger] self.windows@[i] == *w && forall|
                        j: int,
                    |
                        0 <= j < i ==> (#[trigger] self.windows@[j]).resolution_secs
                            != resolution_secs,
                None => forall|i: int|
                    0 <= i < self.windows@.len() ==> (#[trigger] self.windows@[i]).resolution_secs
                        != resolution_secs,
            },
    {
        let n: usize = self.windows.len();
        let mut i: usize = 0;
        while i < n
            invariant
                i <= n == self.windows.len(),
                forall|j: int|
                    0 <= j < i ==> (#[trigger] self@.windows[j]).resolution_secs
                        != resolution_secs,
                forall|j: int|
                    0 <= j < i ==> (#[trigger] self.windows@[j]).resolution_secs
                        != resolution_secs,
            decreases n - i,
        {
            assert(self@.windows[i as int] == self.windows@[i as int]@);
            if self.windows[i].resolution_secs == resolution_secs {
                assert(self@.is_window(resolution_secs as nat, i as int));
                return Some(&self.windows[i]);
            }
            i = i + 1;
        }
        None
    }

    /// Deviation of `now` from the coarsest permitted window, in that window's
    /// standard deviations. `None` where either is missing or the baseline is
    /// flat — a zero-variance baseline makes every deviation infinite, and
    /// reporting that as a number invites acting on it.
    pub fn sigma(&self) -> (r: Option<R>)
        ensures
            r == self@.sigma_of(),
    {
        let n: usize = self.windows.len();
        if n == 0 {
            return None;
        }
        let base: &Window<R> = &self.windows[n - 1];
        assert(self@.windows.last() == base@);
        match (self.now, base.mean, base.variance) {
            (Some(now), Some(mean), Some(variance)) => deviation_of(now, mean, variance),
            _ => None,
        }
    }
}

/// Evidence, frozen.
///
/// A decision that cites this store must carry the values themselves, because
/// the store is built to destroy what it was reading. A reference would still
/// resolve later and would no longer mean what it meant.
#[derive(Clone, Debug, PartialEq)]
pub struct DecisionQuote<R> {
    pub taken_at: u64,
    pub reading: Reading<R>,
}

/// The compact per-signal reading handed to an agent: the temporal context
/// surface. Deliberately small — a read is not a range query.
#[derive(Clone, Debug, PartialEq)]
pub struct ContextSurface<R> {
    pub now: Option<R>,
    pub windows: Vec<(&'static str, Option<R>)>,
    pub baseline: Option<R>,
    pub sigma: Option<R>,
    pub unknown: bool,
}

impl<R> Default for ContextSurface<R> {
    fn default() -> (r: Self)
        ensures
            r.now is None,
            r.windows@.len() == 0,
            r.baseline is None,
            r.sigma is None,
            !r.unknown,
    {
        ContextSurface {
            now: None,
            windows: Vec::new(),
            baseline: None,
            sigma: None,
            unknown: false,
        }
    }
}

impl<R: Real> ContextSurface<R> {
    /// How far the current value sits from the baseline, in baseline standard
    /// deviations. `None` when the baseline is flat, which is the honest answer
    /// — a zero-variance baseline makes every deviation infinite, and reporting
    /// that as a number invites an agent to act on it.
    pub fn sigma_from(now: R, baseline_mean: R, baseline_var: R) -> (r: Option<R>)
        ensures
            r == deviation(now, baseline_mean, baseline_var),
    {
        deviation_of(now, baseline_mean, baseline_var)
    }
}

} // verus!
