//! The declaration: what a store remembers, and what that costs.

use std::collections::BTreeSet;

use vstd::prelude::*;

use crate::arith::{Arith, Real};
use crate::categorical::{no_counts, Categorical};
use crate::clusters::{Codebook, MicroCentroids};
use crate::grant::{ascends, in_order, lemma_contains_push};
use crate::kind::{checked_slot_bytes, slot_measurable, slot_size, Quant, SlotKind};
use crate::slot::{Shape, Slot, Summary};
use crate::vector::{Cloud, VecAccum};
use crate::welford::{Moments, Welford};

verus! {

/// Bytes of fixed header, exclusive of the encoded declaration. Nominal until
/// the on-disk format is written; the footprint arithmetic does not depend on
/// the value.
pub const HEADER_BYTES: usize = 512;

/// One retention tier: how many steps a slot spans, and how many slots are kept.
#[derive(Copy, Debug, PartialEq)]
pub struct ArchiveSpec<R> {
    /// Steps per slot. Must divide into the next archive's value up the ladder.
    pub steps_per_slot: u32,
    pub slots: u32,
    /// Tolerated fraction of unknown constituents before the slot itself reads
    /// unknown.
    pub xff: R,
}

impl<R: Copy> Clone for ArchiveSpec<R> {
    fn clone(&self) -> (r: Self)
        ensures
            r == *self,
    {
        *self
    }
}

impl<R: Real> ArchiveSpec<R> {
    /// An archive that tolerates half of its constituents unknown.
    pub fn new(steps_per_slot: u32, slots: u32) -> (r: Self)
        ensures
            r == (ArchiveSpec {
                steps_per_slot,
                slots,
                xff: R::of_nat(1).quot(R::of_nat(2)),
            }),
    {
        ArchiveSpec { steps_per_slot, slots, xff: R::from_count(1).over(R::from_count(2)) }
    }

    pub fn with_xff(self, xff: R) -> (r: Self)
        ensures
            r == (ArchiveSpec { xff, ..self }),
    {
        ArchiveSpec { steps_per_slot: self.steps_per_slot, slots: self.slots, xff }
    }
}

/// What a signal declares.
#[verifier::ext_equal]
pub struct SignalPlan<F> {
    pub name: Seq<char>,
    pub kind: SlotKind,
    pub classes: nat,
    pub dim: nat,
    pub k: nat,
    pub quant: Quant,
    pub archives: Seq<ArchiveSpec<F>>,
}

/// Why a declaration cannot be honoured.
#[verifier::ext_equal]
pub enum Fault {
    ZeroStep,
    NoArchives(Seq<char>),
    NoClasses(Seq<char>),
    NoDim(Seq<char>),
    NoCodebook(Seq<char>),
    EmptyArchive(Seq<char>),
    BadXff(Seq<char>),
    NotALadder { signal: Seq<char>, finer: u32, coarser: u32 },
}

impl<F: Arith> SignalPlan<F> {
    /// The shape of the signal's slots.
    pub open spec fn shape(self) -> Shape {
        match self.kind {
            SlotKind::Scalar => Shape::Scalar,
            SlotKind::Categorical => Shape::Categorical { classes: self.classes },
            SlotKind::Vector => Shape::Vector { dim: self.dim },
            SlotKind::Clusters => Shape::Clusters { k: self.k, dim: self.dim },
        }
    }

    /// Whether the signal is one of vectors.
    pub open spec fn embeds(self) -> bool {
        self.kind is Vector || self.kind is Clusters
    }

    /// A slot of the signal without observations.
    pub open spec fn blank(self) -> Summary<F> {
        match self.kind {
            SlotKind::Scalar => Summary::Scalar(Moments::none()),
            SlotKind::Categorical => Summary::Categorical(no_counts(self.classes)),
            SlotKind::Vector => Summary::Vector(Cloud::none(self.dim)),
            SlotKind::Clusters => Summary::Clusters(Codebook::none(self.k, self.dim)),
        }
    }

    pub open spec fn slot_size(self) -> nat {
        slot_size(self.kind, self.dim, self.classes, self.quant, self.k)
    }

    /// Whether the size of a slot can be computed.
    pub open spec fn slot_measurable(self) -> bool {
        slot_measurable(self.kind, self.dim, self.classes, self.quant, self.k)
    }

    /// What is wrong with the `i`th archive, looked at after those below it.
    pub open spec fn archive_fault(self, i: int) -> Option<Fault> {
        let a = self.archives[i];
        let p = self.archives[i - 1].steps_per_slot;
        if a.steps_per_slot == 0 || a.slots == 0 {
            Some(Fault::EmptyArchive(self.name))
        } else if !(F::of_nat(0).le(a.xff) && a.xff.le(F::of_nat(1))) {
            Some(Fault::BadXff(self.name))
        } else if i > 0 && (a.steps_per_slot <= p || a.steps_per_slot % p != 0) {
            Some(Fault::NotALadder { signal: self.name, finer: p, coarser: a.steps_per_slot })
        } else {
            None
        }
    }

    /// What is wrong with the first faulty archive among the first `upto`.
    pub open spec fn ladder_fault(self, upto: nat) -> Option<Fault>
        decreases upto,
    {
        if upto == 0 {
            None
        } else {
            match self.ladder_fault((upto - 1) as nat) {
                Some(f) => Some(f),
                None => self.archive_fault(upto - 1),
            }
        }
    }

    /// What is wrong with the signal.
    pub open spec fn fault(self) -> Option<Fault> {
        if self.archives.len() == 0 {
            Some(Fault::NoArchives(self.name))
        } else if self.kind is Categorical && self.classes == 0 {
            Some(Fault::NoClasses(self.name))
        } else if (self.kind is Vector || self.kind is Clusters) && self.dim == 0 {
            Some(Fault::NoDim(self.name))
        } else if self.kind is Clusters && self.k == 0 {
            Some(Fault::NoCodebook(self.name))
        } else {
            self.ladder_fault(self.archives.len())
        }
    }

    /// A signal that a store can keep: it has archives, the size its kind needs,
    /// and archives that coarsen strictly and by whole multiples.
    pub open spec fn valid(self) -> bool {
        &&& self.archives.len() > 0
        &&& self.kind is Categorical ==> self.classes > 0
        &&& self.kind is Vector || self.kind is Clusters ==> self.dim > 0
        &&& self.kind is Clusters ==> self.k > 0
        &&& forall|i: int|
            0 <= i < self.archives.len() ==> {
                &&& (#[trigger] self.archives[i]).steps_per_slot > 0
                &&& self.archives[i].slots > 0
                &&& F::of_nat(0).le(self.archives[i].xff)
                &&& self.archives[i].xff.le(F::of_nat(1))
            }
        &&& forall|i: int|
            0 < i < self.archives.len() ==> {
                &&& self.archives[i - 1].steps_per_slot < (
                #[trigger] self.archives[i]).steps_per_slot
                &&& self.archives[i].steps_per_slot % self.archives[i - 1].steps_per_slot == 0
            }
    }

    /// How many bytes the first `upto` archives take.
    pub open spec fn bytes_upto(self, upto: nat) -> nat
        decreases upto,
    {
        if upto == 0 {
            0
        } else {
            self.bytes_upto((upto - 1) as nat) + self.archives[upto - 1].slots as nat
                * self.slot_size()
        }
    }

    pub open spec fn bytes(self) -> nat {
        self.bytes_upto(self.archives.len())
    }
}

/// A signal is sound exactly where no fault is found.
pub proof fn lemma_signal_valid<F: Arith>(s: SignalPlan<F>)
    ensures
        s.fault() is None <==> s.valid(),
{
    lemma_ladder_fault(s, s.archives.len());
    if s.archives.len() > 0 && s.valid() {
        assert forall|i: int| 0 <= i < s.archives.len() implies s.archive_fault(i) is None by {
            assert(s.archives[i].steps_per_slot > 0);
        }
    }
    if s.fault() is None {
        assert forall|i: int| 0 < i < s.archives.len() implies {
            &&& s.archives[i - 1].steps_per_slot < (#[trigger] s.archives[i]).steps_per_slot
            &&& s.archives[i].steps_per_slot % s.archives[i - 1].steps_per_slot == 0
        } by {
            assert(s.archive_fault(i) is None);
        }
        assert forall|i: int| 0 <= i < s.archives.len() implies {
            &&& (#[trigger] s.archives[i]).steps_per_slot > 0
            &&& s.archives[i].slots > 0
            &&& F::of_nat(0).le(s.archives[i].xff)
            &&& s.archives[i].xff.le(F::of_nat(1))
        } by {
            assert(s.archive_fault(i) is None);
        }
    }
}

proof fn lemma_ladder_fault<F: Arith>(s: SignalPlan<F>, upto: nat)
    requires
        upto <= s.archives.len(),
    ensures
        s.ladder_fault(upto) is None <==> forall|i: int|
            0 <= i < upto ==> (#[trigger] s.archive_fault(i)) is None,
    decreases upto,
{
    if upto > 0 {
        lemma_ladder_fault(s, (upto - 1) as nat);
        if s.ladder_fault(upto) is None {
            assert forall|i: int| 0 <= i < upto implies (
            #[trigger] s.archive_fault(i)) is None by {
                if i == upto - 1 {
                }
            }
        } else if s.ladder_fault((upto - 1) as nat) is None {
            assert(s.archive_fault(upto - 1) is Some);
        }
    }
}

/// What a store remembers.
#[verifier::ext_equal]
pub struct Plan<F> {
    pub step_secs: u64,
    pub signals: Seq<SignalPlan<F>>,
}

/// Whether `i` is the first of the signals of that name.
pub open spec fn is_first<F>(signals: Seq<SignalPlan<F>>, name: Seq<char>, i: int) -> bool {
    &&& 0 <= i < signals.len()
    &&& signals[i].name == name
    &&& forall|j: int| 0 <= j < i ==> (#[trigger] signals[j]).name != name
}

impl<F: Arith> Plan<F> {
    /// What is wrong with the first faulty signal among the first `upto`.
    pub open spec fn signals_fault(self, upto: nat) -> Option<Fault>
        decreases upto,
    {
        if upto == 0 {
            None
        } else {
            match self.signals_fault((upto - 1) as nat) {
                Some(f) => Some(f),
                None => self.signals[upto - 1].fault(),
            }
        }
    }

    /// What is wrong with the declaration: the step first, then the signals in
    /// order.
    pub open spec fn fault(self) -> Option<Fault> {
        if self.step_secs == 0 {
            Some(Fault::ZeroStep)
        } else {
            self.signals_fault(self.signals.len())
        }
    }

    /// A declaration that a store can honour.
    pub open spec fn valid(self) -> bool {
        &&& self.step_secs > 0
        &&& forall|i: int| 0 <= i < self.signals.len() ==> (#[trigger] self.signals[i]).valid()
    }

    /// The seconds that a slot of the archive spans.
    pub open spec fn resolution(self, a: ArchiveSpec<F>) -> int {
        a.steps_per_slot * self.step_secs
    }

    /// Whether the resolutions of a signal can be given in seconds.
    pub open spec fn signal_resolvable(self, s: SignalPlan<F>) -> bool {
        forall|i: int|
            0 <= i < s.archives.len() ==> self.resolution(#[trigger] s.archives[i]) <= u64::MAX
    }

    /// Whether every resolution can be given in seconds.
    pub open spec fn resolvable(self) -> bool {
        forall|i: int|
            0 <= i < self.signals.len() ==> self.signal_resolvable(#[trigger] self.signals[i])
    }

    /// The resolutions of a signal, in the order of its archives.
    pub open spec fn resolutions_in(self, s: SignalPlan<F>) -> Seq<u64> {
        Seq::new(s.archives.len(), |i: int| self.resolution(s.archives[i]) as u64)
    }

    /// Whether some archive of some signal has the resolution.
    pub open spec fn offers(self, r: u64) -> bool {
        exists|i: int|
            0 <= i < self.signals.len() && #[trigger] self.resolutions_in(
                self.signals[i],
            ).contains(r)
    }

    /// The resolutions of the first signal of that name, in the order of its
    /// archives; none where there is no such signal.
    pub open spec fn resolutions_named(self, name: Seq<char>) -> Seq<u64> {
        if exists|i: int| is_first(self.signals, name, i) {
            let i = choose|i: int| is_first(self.signals, name, i);
            self.resolutions_in(self.signals[i])
        } else {
            Seq::empty()
        }
    }

    /// Whether the resolutions of the first signal of that name can be given in
    /// seconds.
    pub open spec fn named_resolvable(self, name: Seq<char>) -> bool {
        forall|i: int|
            #[trigger] is_first(self.signals, name, i) ==> self.signal_resolvable(self.signals[i])
    }

    /// How many bytes the first `upto` signals take.
    pub open spec fn bytes_upto(self, upto: nat) -> nat
        decreases upto,
    {
        if upto == 0 {
            0
        } else {
            self.bytes_upto((upto - 1) as nat) + self.signals[upto - 1].bytes()
        }
    }

    /// The header, and for every archive its slots times the size of a slot.
    pub open spec fn footprint(self) -> nat {
        HEADER_BYTES as nat + self.bytes_upto(self.signals.len())
    }

    /// Whether the footprint can be computed.
    pub open spec fn measurable(self) -> bool {
        &&& self.footprint() <= usize::MAX
        &&& forall|i: int|
            0 <= i < self.signals.len() ==> (#[trigger] self.signals[i]).slot_measurable()
    }
}

/// A declaration is sound exactly where no fault is found.
pub proof fn lemma_plan_valid<F: Arith>(p: Plan<F>)
    ensures
        p.fault() is None <==> p.valid(),
{
    lemma_signals_fault(p, p.signals.len());
    assert forall|i: int| 0 <= i < p.signals.len() implies (
    #[trigger] p.signals[i]).fault() is None <==> p.signals[i].valid() by {
        lemma_signal_valid(p.signals[i]);
    }
}

proof fn lemma_signals_fault<F: Arith>(p: Plan<F>, upto: nat)
    requires
        upto <= p.signals.len(),
    ensures
        p.signals_fault(upto) is None <==> forall|i: int|
            0 <= i < upto ==> (#[trigger] p.signals[i]).fault() is None,
    decreases upto,
{
    if upto > 0 {
        lemma_signals_fault(p, (upto - 1) as nat);
        if p.signals_fault(upto) is None {
            assert forall|i: int| 0 <= i < upto implies (
            #[trigger] p.signals[i]).fault() is None by {
                if i == upto - 1 {
                }
            }
        }
    }
}

/// One signal and its retention ladder.
#[derive(Debug, PartialEq)]
pub struct SignalSpec<R> {
    pub name: String,
    pub kind: SlotKind,
    /// Class count for [`SlotKind::Categorical`], otherwise ignored.
    pub classes: usize,
    /// Embedding dimension for vector kinds, otherwise ignored.
    pub dim: usize,
    /// Codebook size for [`SlotKind::Clusters`], otherwise ignored.
    pub k: usize,
    pub quant: Quant,
    /// Finest first, strictly coarsening.
    pub archives: Vec<ArchiveSpec<R>>,
}

impl<R> View for SignalSpec<R> {
    type V = SignalPlan<R>;

    open spec fn view(&self) -> SignalPlan<R> {
        SignalPlan {
            name: self.name@,
            kind: self.kind,
            classes: self.classes as nat,
            dim: self.dim as nat,
            k: self.k as nat,
            quant: self.quant,
            archives: self.archives@,
        }
    }
}

impl<R: Copy> Clone for SignalSpec<R> {
    fn clone(&self) -> (r: Self)
        ensures
            r@ == self@,
    {
        let archives: Vec<ArchiveSpec<R>> = self.archives.clone();
        assert(archives@ =~= self.archives@);
        SignalSpec {
            name: self.name.clone(),
            kind: self.kind,
            classes: self.classes,
            dim: self.dim,
            k: self.k,
            quant: self.quant,
            archives,
        }
    }
}

impl<R: Real> SignalSpec<R> {
    pub fn scalar(name: &str, archives: Vec<ArchiveSpec<R>>) -> (r: Self)
        ensures
            r@ == (SignalPlan {
                name: name@,
                kind: SlotKind::Scalar,
                classes: 0,
                dim: 0,
                k: 0,
                quant: Quant::F32,
                archives: archives@,
            }),
    {
        SignalSpec {
            name: name.to_owned(),
            kind: SlotKind::Scalar,
            classes: 0,
            dim: 0,
            k: 0,
            quant: Quant::F32,
            archives,
        }
    }

    pub fn categorical(name: &str, classes: usize, archives: Vec<ArchiveSpec<R>>) -> (r: Self)
        ensures
            r@ == (SignalPlan {
                name: name@,
                kind: SlotKind::Categorical,
                classes: classes as nat,
                dim: 0,
                k: 0,
                quant: Quant::F32,
                archives: archives@,
            }),
    {
        SignalSpec {
            name: name.to_owned(),
            kind: SlotKind::Categorical,
            classes,
            dim: 0,
            k: 0,
            quant: Quant::F32,
            archives,
        }
    }

    pub fn vector(name: &str, dim: usize, quant: Quant, archives: Vec<ArchiveSpec<R>>) -> (r: Self)
        ensures
            r@ == (SignalPlan {
                name: name@,
                kind: SlotKind::Vector,
                classes: 0,
                dim: dim as nat,
                k: 0,
                quant,
                archives: archives@,
            }),
    {
        SignalSpec {
            name: name.to_owned(),
            kind: SlotKind::Vector,
            classes: 0,
            dim,
            k: 0,
            quant,
            archives,
        }
    }

    /// A slot of this signal without observations.
    pub(crate) fn empty_slot(&self) -> (r: Slot<R>)
        requires
            self@.kind is Clusters ==> self@.k > 0,
        ensures
            r@ == self@.blank(),
    {
        match self.kind {
            SlotKind::Scalar => Slot::Scalar(Welford::new()),
            SlotKind::Categorical => Slot::Categorical(Categorical::new(self.classes)),
            SlotKind::Vector => Slot::Vector(VecAccum::new(self.dim)),
            SlotKind::Clusters => Slot::Clusters(MicroCentroids::new(self.k, self.dim)),
        }
    }

    /// The first fault of this signal.
    fn check(&self) -> (r: Result<(), DeclError>)
        ensures
            same_verdict(r, self@.fault()),
    {
        if self.archives.len() == 0 {
            return Err(DeclError::NoArchives(self.name.clone()));
        }
        if matches!(self.kind, SlotKind::Categorical) && self.classes == 0 {
            return Err(DeclError::NoClasses(self.name.clone()));
        }
        if matches!(self.kind, SlotKind::Vector | SlotKind::Clusters) && self.dim == 0 {
            return Err(DeclError::NoDim(self.name.clone()));
        }
        if matches!(self.kind, SlotKind::Clusters) && self.k == 0 {
            return Err(DeclError::NoCodebook(self.name.clone()));
        }
        let n: usize = self.archives.len();
        let zero = R::from_count(0);
        let one = R::from_count(1);
        let mut prev: Option<u32> = None;
        let mut i: usize = 0;
        while i < n
            invariant
                i <= n == self.archives.len(),
                zero == R::of_nat(0),
                one == R::of_nat(1),
                prev == (if i == 0 {
                    None
                } else {
                    Some(self@.archives[i - 1].steps_per_slot)
                }),
                i > 0 ==> self@.archives[i - 1].steps_per_slot > 0,
                self@.fault() == self@.ladder_fault(n as nat),
                self@.ladder_fault(i as nat) is None,
            decreases n - i,
        {
            let a: ArchiveSpec<R> = self.archives[i];
            proof {
                lemma_fault_stays(self@, (i + 1) as nat, n as nat);
            }
            if a.steps_per_slot == 0 || a.slots == 0 {
                return Err(DeclError::EmptyArchive(self.name.clone()));
            }
            if !(zero.at_most(a.xff) && a.xff.at_most(one)) {
                return Err(DeclError::BadXff(self.name.clone()));
            }
            if let Some(p) = prev {
                if a.steps_per_slot <= p || a.steps_per_slot % p != 0 {
                    return Err(
                        DeclError::NotALadder {
                            signal: self.name.clone(),
                            finer: p,
                            coarser: a.steps_per_slot,
                        },
                    );
                }
            }
            prev = Some(a.steps_per_slot);
            i = i + 1;
        }
        Ok(())
    }

    /// The bytes of all archives, where they can be computed.
    fn checked_bytes(&self) -> (r: Option<usize>)
        ensures
            r is Some <==> self@.slot_measurable() && self@.bytes() <= usize::MAX,
            r matches Some(n) ==> n == self@.bytes(),
    {
        let per: usize = match checked_slot_bytes(
            self.kind,
            self.dim,
            self.classes,
            self.quant,
            self.k,
        ) {
            Some(n) => n,
            None => {
                return None;
            },
        };
        let n: usize = self.archives.len();
        let mut sum: usize = 0;
        let mut i: usize = 0;
        while i < n
            invariant
                i <= n == self.archives.len(),
                per == self@.slot_size(),
                self@.slot_measurable(),
                sum == self@.bytes_upto(i as nat),
            decreases n - i,
        {
            proof {
                lemma_bytes_grow(self@, (i + 1) as nat, n as nat);
            }
            let a: ArchiveSpec<R> = self.archives[i];
            assert(self@.archives[i as int] == a);
            assert(self@.bytes_upto((i + 1) as nat) == sum + a.slots as nat * self@.slot_size());
            let whole: usize = match (a.slots as usize).checked_mul(per) {
                Some(w) => w,
                None => {
                    return None;
                },
            };
            sum = match sum.checked_add(whole) {
                Some(s) => s,
                None => {
                    return None;
                },
            };
            i = i + 1;
        }
        Some(sum)
    }
}

/// A fault that was found is the one that is reported.
proof fn lemma_fault_stays<F: Arith>(s: SignalPlan<F>, i: nat, upto: nat)
    requires
        i <= upto,
    ensures
        s.ladder_fault(i) is Some ==> s.ladder_fault(upto) == s.ladder_fault(i),
    decreases upto,
{
    if i < upto {
        lemma_fault_stays(s, i, (upto - 1) as nat);
    }
}

proof fn lemma_bytes_grow<F: Arith>(s: SignalPlan<F>, i: nat, upto: nat)
    requires
        i <= upto,
    ensures
        s.bytes_upto(i) <= s.bytes_upto(upto),
    decreases upto,
{
    if i < upto {
        lemma_bytes_grow(s, i, (upto - 1) as nat);
    }
}

#[derive(Clone, Debug, PartialEq, Eq)]
pub enum DeclError {
    ZeroStep,
    NoArchives(String),
    NoClasses(String),
    NoDim(String),
    /// A codebook without room for a centroid.
    NoCodebook(String),
    EmptyArchive(String),
    BadXff(String),
    /// A coarser archive whose span is not a whole multiple of the finer one.
    NotALadder { signal: String, finer: u32, coarser: u32 },
}

impl View for DeclError {
    type V = Fault;

    open spec fn view(&self) -> Fault {
        match self {
            DeclError::ZeroStep => Fault::ZeroStep,
            DeclError::NoArchives(s) => Fault::NoArchives(s@),
            DeclError::NoClasses(s) => Fault::NoClasses(s@),
            DeclError::NoDim(s) => Fault::NoDim(s@),
            DeclError::NoCodebook(s) => Fault::NoCodebook(s@),
            DeclError::EmptyArchive(s) => Fault::EmptyArchive(s@),
            DeclError::BadXff(s) => Fault::BadXff(s@),
            DeclError::NotALadder { signal, finer, coarser } => Fault::NotALadder {
                signal: signal@,
                finer: *finer,
                coarser: *coarser,
            },
        }
    }
}

/// Success where there is no fault, and that fault otherwise.
pub open spec fn same_verdict(r: Result<(), DeclError>, fault: Option<Fault>) -> bool {
    match r {
        Ok(_) => fault is None,
        Err(e) => fault == Some(e@),
    }
}

/// What a store remembers. The contract, and the whole of the footprint
/// calculation.
#[derive(Debug, PartialEq)]
pub struct Declaration<R> {
    pub step_secs: u64,
    pub signals: Vec<SignalSpec<R>>,
}

impl<R> View for Declaration<R> {
    type V = Plan<R>;

    open spec fn view(&self) -> Plan<R> {
        Plan {
            step_secs: self.step_secs,
            signals: self.signals@.map_values(|s: SignalSpec<R>| s@),
        }
    }
}

impl<R: Copy> Clone for Declaration<R> {
    fn clone(&self) -> (r: Self)
        ensures
            r@ == self@,
    {
        let signals: Vec<SignalSpec<R>> = self.signals.clone();
        let r = Declaration { step_secs: self.step_secs, signals };
        assert(r@.signals =~= self@.signals);
        r
    }
}

impl<R: Real> Declaration<R> {
    pub fn new(step_secs: u64, signals: Vec<SignalSpec<R>>) -> (r: Self)
        ensures
            r == (Declaration { step_secs, signals }),
    {
        Declaration { step_secs, signals }
    }

    /// Rejects a declaration a store cannot honour.
    ///
    /// The ladder constraint is load-bearing rather than cosmetic: a coarse slot
    /// is built by merging whole fine slots, so each archive's span must be an
    /// exact multiple of the one below it. Without that, consolidation would
    /// have to split a slot, and a slot is the finest thing that still exists.
    pub fn validate(&self) -> (r: Result<(), DeclError>)
        ensures
            same_verdict(r, self@.fault()),
            r matches Err(e) ==> self@.fault() == Some(e@),
            r is Ok <==> self@.valid(),
    {
        proof {
            lemma_plan_valid(self@);
        }
        if self.step_secs == 0 {
            return Err(DeclError::ZeroStep);
        }
        let n: usize = self.signals.len();
        let mut i: usize = 0;
        while i < n
            invariant
                i <= n == self.signals.len(),
                self@.step_secs > 0,
                self@.fault() is None <==> self@.valid(),
                self@.signals_fault(i as nat) is None,
            decreases n - i,
        {
            assert(self@.signals[i as int] == self.signals@[i as int]@);
            match self.signals[i].check() {
                Ok(_) => {},
                Err(e) => {
                    proof {
                        lemma_signal_fault_stays(self@, (i + 1) as nat, n as nat);
                    }
                    return Err(e);
                },
            }
            i = i + 1;
        }
        Ok(())
    }

    /// Every resolution this declaration offers, in seconds, ascending.
    pub fn resolutions(&self) -> (r: Vec<u64>)
        requires
            self@.resolvable(),
        ensures
            ascends(r@),
            forall|i: int, j: int| 0 <= i < j < r@.len() ==> r@[i] < r@[j],
            forall|x: u64| r@.contains(x) <==> self@.offers(x),
    {
        let mut out: BTreeSet<u64> = BTreeSet::new();
        let n: usize = self.signals.len();
        let mut i: usize = 0;
        while i < n
            invariant
                i <= n == self.signals.len(),
                self@.resolvable(),
                forall|x: u64| #[trigger]
                    out@.contains(x) <==> exists|t: int|
                        0 <= t < i && #[trigger] self@.resolutions_in(
                            self@.signals[t],
                        ).contains(x),
            decreases n - i,
        {
            let ghost before = out@;
            let ghost s = self@.signals[i as int];
            let ghost rs = self@.resolutions_in(s);
            let list: Vec<u64> = self.resolutions_at(i);
            let m: usize = list.len();
            let mut j: usize = 0;
            while j < m
                invariant
                    j <= m == list.len(),
                    list@ == rs,
                    forall|x: u64| #[trigger]
                        out@.contains(x) <==> before.contains(x) || rs.take(j as int).contains(x),
                decreases m - j,
            {
                out.insert(list[j]);
                proof {
                    lemma_contains_push(rs, j as int);
                }
                j = j + 1;
            }
            proof {
                assert(rs.take(m as int) =~= rs);
                assert forall|x: u64| #[trigger] out@.contains(x) <==> exists|t: int|
                    0 <= t < i + 1 && #[trigger] self@.resolutions_in(
                        self@.signals[t],
                    ).contains(x) by {
                    if before.contains(x) {
                        let t = choose|t: int|
                            0 <= t < i && #[trigger] self@.resolutions_in(
                                self@.signals[t],
                            ).contains(x);
                        assert(self@.resolutions_in(self@.signals[t]).contains(x));
                    }
                    if rs.contains(x) {
                        assert(self@.resolutions_in(self@.signals[i as int]).contains(x));
                    }
                }
            }
            i = i + 1;
        }
        in_order(&out)
    }

    /// The resolutions of the `i`th signal, in the order of its archives.
    pub(crate) fn resolutions_at(&self, i: usize) -> (r: Vec<u64>)
        requires
            i < self.signals@.len(),
            self@.signal_resolvable(self@.signals[i as int]),
        ensures
            r@ == self@.resolutions_in(self@.signals[i as int]),
    {
        let ghost s = self@.signals[i as int];
        let n: usize = self.signals[i].archives.len();
        let mut out: Vec<u64> = Vec::new();
        let mut j: usize = 0;
        while j < n
            invariant
                i < self.signals@.len(),
                s == self@.signals[i as int],
                j <= n == s.archives.len(),
                self@.signal_resolvable(s),
                out@ == self@.resolutions_in(s).take(j as int),
            decreases n - j,
        {
            let a: ArchiveSpec<R> = self.signals[i].archives[j];
            assert(self@.resolution(s.archives[j as int]) <= u64::MAX);
            out.push(a.steps_per_slot as u64 * self.step_secs);
            j = j + 1;
            assert(out@ =~= self@.resolutions_in(s).take(j as int));
        }
        assert(self@.resolutions_in(s).take(n as int) =~= self@.resolutions_in(s));
        out
    }

    /// Resolutions offered for one signal, ascending. Empty if unknown.
    pub fn resolutions_of(&self, signal: &str) -> (r: Vec<u64>)
        requires
            self@.named_resolvable(signal@),
        ensures
            forall|i: int, j: int| 0 <= i < j < r@.len() ==> r@[i] <= r@[j],
            r@.to_multiset() == self@.resolutions_named(signal@).to_multiset(),
            forall|q: u64|
                r@.contains(q) <==> self@.resolutions_named(signal@).contains(q),
            self@.valid() ==> r@ == self@.resolutions_named(signal@),
    {
        let name: String = signal.to_owned();
        let n: usize = self.signals.len();
        let mut i: usize = 0;
        while i < n
            invariant
                i <= n == self.signals.len(),
                name@ == signal@,
                self@.named_resolvable(signal@),
                forall|j: int| 0 <= j < i ==> (#[trigger] self@.signals[j]).name != signal@,
            decreases n - i,
        {
            assert(self@.signals[i as int] == self.signals@[i as int]@);
            if self.signals[i].name == name {
                proof {
                    assert(is_first(self@.signals, signal@, i as int));
                    let c = choose|c: int| is_first(self@.signals, signal@, c);
                    assert(c == i);
                    assert(self@.signal_resolvable(self@.signals[i as int]));
                    if self@.valid() {
                        assert(self@.signals[i as int].valid());
                        lemma_resolutions_ascend(self@, self@.signals[i as int]);
                    }
                }
                let listed: Vec<u64> = self.resolutions_at(i);
                let out: Vec<u64> = sorted(&listed);
                proof {
                    lemma_same_members(out@, listed@);
                }
                return out;
            }
            i = i + 1;
        }
        assert(forall|i: int| !is_first(self@.signals, signal@, i));
        Vec::new()
    }

    /// Whether the resolutions of the `i`th signal can be given in seconds.
    fn resolves_at(&self, i: usize) -> (r: bool)
        requires
            i < self.signals@.len(),
        ensures
            r == self@.signal_resolvable(self@.signals[i as int]),
    {
        let ghost s = self@.signals[i as int];
        let n: usize = self.signals[i].archives.len();
        let mut j: usize = 0;
        while j < n
            invariant
                i < self.signals@.len(),
                s == self@.signals[i as int],
                j <= n == s.archives.len(),
                forall|t: int|
                    0 <= t < j ==> self@.resolution(#[trigger] s.archives[t]) <= u64::MAX,
            decreases n - j,
        {
            let a: ArchiveSpec<R> = self.signals[i].archives[j];
            assert(s.archives[j as int] == a);
            if (a.steps_per_slot as u64).checked_mul(self.step_secs).is_none() {
                assert(self@.resolution(s.archives[j as int]) > u64::MAX);
                return false;
            }
            j = j + 1;
        }
        true
    }

    /// Whether every resolution can be given in seconds.
    pub fn resolves(&self) -> (r: bool)
        ensures
            r == self@.resolvable(),
    {
        let n: usize = self.signals.len();
        let mut i: usize = 0;
        while i < n
            invariant
                i <= n == self.signals.len(),
                forall|t: int|
                    0 <= t < i ==> self@.signal_resolvable(#[trigger] self@.signals[t]),
            decreases n - i,
        {
            if !self.resolves_at(i) {
                assert(!self@.signal_resolvable(self@.signals[i as int]));
                return false;
            }
            i = i + 1;
        }
        true
    }

    /// Whether the resolutions of one signal can be given in seconds.
    pub fn resolves_of(&self, signal: &str) -> (r: bool)
        ensures
            r == self@.named_resolvable(signal@),
    {
        let name: String = signal.to_owned();
        let n: usize = self.signals.len();
        let mut i: usize = 0;
        while i < n
            invariant
                i <= n == self.signals.len(),
                name@ == signal@,
                forall|j: int| 0 <= j < i ==> (#[trigger] self@.signals[j]).name != signal@,
            decreases n - i,
        {
            assert(self@.signals[i as int] == self.signals@[i as int]@);
            if self.signals[i].name == name {
                proof {
                    assert(is_first(self@.signals, signal@, i as int));
                    assert(forall|c: int| is_first(self@.signals, signal@, c) ==> c == i);
                }
                return self.resolves_at(i);
            }
            i = i + 1;
        }
        assert(forall|i: int| !is_first(self@.signals, signal@, i));
        true
    }

    /// Total bytes, where they can be computed.
    pub fn checked_footprint(&self) -> (r: Option<usize>)
        ensures
            r is Some <==> self@.measurable(),
            r matches Some(n) ==> n == self@.footprint(),
    {
        let n: usize = self.signals.len();
        let mut sum: usize = HEADER_BYTES;
        let mut i: usize = 0;
        while i < n
            invariant
                i <= n == self.signals.len(),
                sum == HEADER_BYTES + self@.bytes_upto(i as nat),
                forall|t: int| 0 <= t < i ==> (#[trigger] self@.signals[t]).slot_measurable(),
            decreases n - i,
        {
            assert(self@.signals[i as int] == self.signals@[i as int]@);
            proof {
                lemma_signals_bytes_grow(self@, (i + 1) as nat, n as nat);
            }
            let bytes: usize = match self.signals[i].checked_bytes() {
                Some(b) => b,
                None => {
                    assert(!self@.signals[i as int].slot_measurable()
                        || self@.signals[i as int].bytes() > usize::MAX);
                    return None;
                },
            };
            sum = match sum.checked_add(bytes) {
                Some(s) => s,
                None => {
                    return None;
                },
            };
            i = i + 1;
        }
        Some(sum)
    }

    /// Total bytes. Fixed at creation, and independent of how much is ingested.
    pub fn footprint(&self) -> (r: usize)
        requires
            self@.measurable(),
        ensures
            r == self@.footprint(),
    {
        self.checked_footprint().unwrap()
    }
}

/// The archives of a sound signal coarsen, so its resolutions ascend, and no two are
/// the same.
pub proof fn lemma_resolutions_ascend<F: Arith>(plan: Plan<F>, s: SignalPlan<F>)
    requires
        s.valid(),
        plan.step_secs > 0,
        plan.signal_resolvable(s),
    ensures
        ascends(plan.resolutions_in(s)),
{
    let r = plan.resolutions_in(s);
    assert forall|i: int, j: int| 0 <= i < j < r.len() implies r[i] < r[j] by {
        lemma_spans_ascend(s, i, j);
        let (a, b, step) = (
            s.archives[i].steps_per_slot as int,
            s.archives[j].steps_per_slot as int,
            plan.step_secs as int,
        );
        assert(plan.resolution(s.archives[i]) <= u64::MAX);
        assert(plan.resolution(s.archives[j]) <= u64::MAX);
        assert(0 <= a * step < b * step) by (nonlinear_arith)
            requires
                0 <= a < b,
                step > 0,
        ;
    }
}

proof fn lemma_spans_ascend<F: Arith>(s: SignalPlan<F>, i: int, j: int)
    requires
        s.valid(),
        0 <= i < j < s.archives.len(),
    ensures
        s.archives[i].steps_per_slot < s.archives[j].steps_per_slot,
    decreases j,
{
    assert(s.archives[j - 1].steps_per_slot < s.archives[j].steps_per_slot);
    if i < j - 1 {
        lemma_spans_ascend(s, i, j - 1);
    }
}

/// What holds the same numbers as often has the same members.
proof fn lemma_same_members(a: Seq<u64>, b: Seq<u64>)
    requires
        a.to_multiset() == b.to_multiset(),
    ensures
        forall|q: u64| a.contains(q) <==> b.contains(q),
{
    broadcast use vstd::seq_lib::group_to_multiset_ensures;

    assert forall|q: u64| a.contains(q) <==> b.contains(q) by {
        assert(a.contains(q) <==> a.to_multiset().count(q) > 0);
        assert(b.contains(q) <==> b.to_multiset().count(q) > 0);
    }
}

/// The numbers in order. Those that ascend stay as they are.
fn sorted(list: &Vec<u64>) -> (r: Vec<u64>)
    ensures
        forall|i: int, j: int| 0 <= i < j < r@.len() ==> r@[i] <= r@[j],
        r@.to_multiset() == list@.to_multiset(),
        ascends(list@) ==> r@ == list@,
{
    let n: usize = list.len();
    let mut out: Vec<u64> = Vec::new();
    let mut i: usize = 0;
    assert(list@.take(0) =~= out@);
    while i < n
        invariant
            i <= n == list.len(),
            out@.len() == i,
            forall|a: int, b: int| 0 <= a < b < out@.len() ==> out@[a] <= out@[b],
            out@.to_multiset() == list@.take(i as int).to_multiset(),
            ascends(list@) ==> out@ == list@.take(i as int),
        decreases n - i,
    {
        let x: u64 = list[i];
        let mut p: usize = i;
        while p > 0 && out[p - 1] > x
            invariant
                p <= i == out@.len(),
                forall|b: int| p <= b < out@.len() ==> out@[b] > x,
            decreases p,
        {
            p = p - 1;
        }
        let ghost before = out@;
        out.insert(p, x);
        proof {
            broadcast use vstd::seq_lib::group_to_multiset_ensures;

            let now = list@.take(i + 1);
            assert(now =~= list@.take(i as int).push(x));
            assert(out@ =~= before.insert(p as int, x));
            out@.to_multiset_ensures();
            list@.take(i as int).to_multiset_ensures();
            assert(out@.remove(p as int) =~= before);
            assert(out@[p as int] == x && out@.contains(x));
            assert(out@.to_multiset().remove(x) == before.to_multiset());
            assert(out@.to_multiset() =~= before.to_multiset().insert(x));
            if ascends(list@) {
                if p < i {
                    assert(before[i - 1] == list@[i - 1]);
                    assert(list@[i - 1] < list@[i as int]);
                }
                assert(out@ =~= now);
            }
        }
        i = i + 1;
    }
    assert(list@.take(n as int) =~= list@);
    out
}

proof fn lemma_signal_fault_stays<F: Arith>(p: Plan<F>, i: nat, upto: nat)
    requires
        i <= upto,
    ensures
        p.signals_fault(i) is Some ==> p.signals_fault(upto) == p.signals_fault(i),
    decreases upto,
{
    if i < upto {
        lemma_signal_fault_stays(p, i, (upto - 1) as nat);
    }
}

proof fn lemma_signals_bytes_grow<F: Arith>(p: Plan<F>, i: nat, upto: nat)
    requires
        i <= upto,
    ensures
        p.bytes_upto(i) <= p.bytes_upto(upto),
    decreases upto,
{
    if i < upto {
        lemma_signals_bytes_grow(p, i, (upto - 1) as nat);
    }
}

} // verus!
