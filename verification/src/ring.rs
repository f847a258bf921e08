//! A ring of slots with a declared capacity.

use vstd::prelude::*;

use crate::arith::{Arith, Real};
use crate::slot::{copy_of, lemma_addable, lemma_joined, summary_of, Shape, Slot, Summary};

verus! {

/// The slots that carry data, merged from the first on.
pub open spec fn folded<F: Arith>(slots: Seq<Option<Summary<F>>>) -> Option<Summary<F>>
    decreases slots.len(),
{
    if slots.len() == 0 {
        None
    } else {
        match (folded(slots.drop_last()), slots.last()) {
            (Some(a), Some(b)) => Some(a.joined(b)),
            (None, b) => b,
            (a, None) => a,
        }
    }
}

/// Whether every merge of the fold is defined.
pub open spec fn foldable<F: Arith>(slots: Seq<Option<Summary<F>>>) -> bool
    decreases slots.len(),
{
    slots.len() > 0 ==> {
        &&& foldable(slots.drop_last())
        &&& match (folded(slots.drop_last()), slots.last()) {
            (Some(a), Some(b)) => a.addable(b),
            _ => true,
        }
    }
}

/// How many of the slots carry no data.
pub open spec fn absent<F>(slots: Seq<Option<Summary<F>>>) -> nat
    decreases slots.len(),
{
    if slots.len() == 0 {
        0
    } else {
        absent(slots.drop_last()) + if slots.last() is None {
            1nat
        } else {
            0nat
        }
    }
}

/// The observations behind a slot; none where it carries no data.
pub open spec fn count_of<F: Arith>(slot: Option<Summary<F>>) -> nat {
    match slot {
        Some(s) => s.count(),
        None => 0,
    }
}

/// The observations behind all of the slots.
pub open spec fn counts_of<F: Arith>(slots: Seq<Option<Summary<F>>>) -> nat
    decreases slots.len(),
{
    if slots.len() == 0 {
        0
    } else {
        counts_of(slots.drop_last()) + count_of(slots.last())
    }
}

/// Whether a slot is absent, or well formed, of the given shape and with
/// observations behind it.
pub open spec fn fits<F: Arith>(slot: Option<Summary<F>>, shape: Shape) -> bool {
    match slot {
        Some(s) => s.wf() && s.shape() == shape && s.count() > 0,
        None => true,
    }
}

pub open spec fn all_fit<F: Arith>(slots: Seq<Option<Summary<F>>>, shape: Shape) -> bool {
    forall|i: int| 0 <= i < slots.len() ==> fits(#[trigger] slots[i], shape)
}

/// Whether a share of `part` in `whole` is more than `limit`.
pub open spec fn exceeds<F: Arith>(part: nat, whole: nat, limit: F) -> bool {
    limit.lt(F::of_nat(part).quot(F::of_nat(whole)))
}

/// What a ring holds: the retained slots, oldest first, out of all that were ever
/// written.
#[verifier::ext_equal]
pub struct Track<F> {
    pub capacity: nat,
    pub written: nat,
    pub slots: Seq<Option<Summary<F>>>,
}

impl<F: Arith> Track<F> {
    pub open spec fn empty(capacity: nat) -> Self {
        Track { capacity, written: 0, slots: Seq::empty() }
    }

    /// The footprint is fixed: all that was written is retained until there is no
    /// more room, and from then on as much as there is room for.
    pub open spec fn wf(self) -> bool {
        &&& self.capacity > 0
        &&& self.slots.len() == if self.written < self.capacity {
            self.written
        } else {
            self.capacity
        }
    }

    /// One more slot, at the cost of the oldest where there is no room.
    pub open spec fn with(self, slot: Option<Summary<F>>) -> Self {
        Track {
            written: self.written + 1,
            slots: if self.slots.len() < self.capacity {
                self.slots.push(slot)
            } else {
                self.slots.drop_first().push(slot)
            },
            ..self
        }
    }

    /// The slot that was written last, if it carries data.
    pub open spec fn newest_of(self) -> Option<Summary<F>> {
        if self.slots.len() == 0 {
            None
        } else {
            self.slots.last()
        }
    }

    /// Whether more of the retained slots are absent than `xff` tolerates, or
    /// there are none.
    pub open spec fn sparse(self, xff: F) -> bool {
        self.slots.len() == 0 || exceeds(absent(self.slots), self.slots.len(), xff)
    }
}

/// Slots of one shape whose observations can be counted together can be folded,
/// and the fold has that shape and counts them all.
pub proof fn lemma_folded<F: Arith>(slots: Seq<Option<Summary<F>>>, shape: Shape)
    requires
        all_fit(slots, shape),
        counts_of(slots) <= u64::MAX,
    ensures
        foldable(slots),
        fits(folded(slots), shape),
        count_of(folded(slots)) == counts_of(slots),
    decreases slots.len(),
{
    if slots.len() > 0 {
        let rest = slots.drop_last();
        assert forall|i: int| 0 <= i < rest.len() implies fits(#[trigger] rest[i], shape) by {
            assert(rest[i] == slots[i]);
        }
        lemma_folded(rest, shape);
        assert(fits(slots[slots.len() - 1], shape));
        match (folded(rest), slots.last()) {
            (Some(a), Some(b)) => {
                lemma_joined(a, b);
            },
            _ => {},
        }
    }
}

/// One more slot adds its observations.
pub proof fn lemma_counts_of_push<F: Arith>(
    slots: Seq<Option<Summary<F>>>,
    slot: Option<Summary<F>>,
)
    ensures
        counts_of(slots.push(slot)) == counts_of(slots) + count_of(slot),
{
    assert(slots.push(slot).drop_last() =~= slots);
}

/// Without the first slot there are the observations of the others.
pub proof fn lemma_counts_of_drop_first<F: Arith>(slots: Seq<Option<Summary<F>>>)
    requires
        slots.len() > 0,
    ensures
        counts_of(slots.drop_first()) + count_of(slots.first()) == counts_of(slots),
    decreases slots.len(),
{
    if slots.len() == 1 {
        assert(slots.drop_first() =~= Seq::<Option<Summary<F>>>::empty());
        assert(slots.drop_last() =~= Seq::<Option<Summary<F>>>::empty());
    } else {
        lemma_counts_of_drop_first(slots.drop_last());
        assert(slots.drop_first().drop_last() =~= slots.drop_last().drop_first());
        assert(slots.drop_first().last() == slots.last());
    }
}

/// Writing a slot adds its observations, and takes away those of the slot it
/// displaces.
pub proof fn lemma_counts_of_with<F: Arith>(track: Track<F>, slot: Option<Summary<F>>)
    requires
        track.wf(),
    ensures
        track.with(slot).wf(),
        counts_of(track.with(slot).slots) <= counts_of(track.slots) + count_of(slot),
{
    if track.slots.len() < track.capacity {
        lemma_counts_of_push(track.slots, slot);
    } else {
        lemma_counts_of_drop_first(track.slots);
        lemma_counts_of_push(track.slots.drop_first(), slot);
    }
}

/// A ring of slots with a declared capacity. Writing past the end overwrites the
/// oldest slot, which is the whole point: the footprint never grows.
///
/// A slot may be absent, which is how "unknown" reaches the read surface as a
/// distinct value rather than as a zero an agent will reason from.
#[derive(Debug)]
pub struct Ring<R> {
    slots: Vec<Option<Slot<R>>>,
    cursor: usize,
    written: u64,
}

impl<R> Ring<R> {
    /// The place of the `i`th retained slot, oldest first.
    closed spec fn place(&self, i: int) -> int {
        let n = self.slots@.len() as int;
        if self.written < n {
            i
        } else if self.cursor + i < n {
            self.cursor + i
        } else {
            self.cursor + i - n
        }
    }

    closed spec fn retained(&self) -> nat {
        if self.written < self.slots@.len() {
            self.written as nat
        } else {
            self.slots@.len()
        }
    }

    /// There is room for a slot, and the cursor is at the place of the next one:
    /// behind the last one written until the ring has gone round.
    pub closed spec fn wf(&self) -> bool {
        &&& self.slots@.len() > 0
        &&& self.cursor < self.slots@.len()
        &&& self.written < self.slots@.len() ==> self.cursor == self.written
    }
}

impl<R> View for Ring<R> {
    type V = Track<R>;

    closed spec fn view(&self) -> Track<R> {
        Track {
            capacity: self.slots@.len(),
            written: self.written as nat,
            slots: Seq::new(self.retained(), |i: int| summary_of(self.slots@[self.place(i)])),
        }
    }
}

/// A ring in order holds what is in order: what is proved of such a track holds of it.
pub proof fn lemma_ring_wf<R: Real>(ring: Ring<R>)
    requires
        ring.wf(),
    ensures
        ring@.wf(),
{
}

impl<R: Real> Clone for Ring<R> {
    fn clone(&self) -> (r: Self)
        ensures
            self.wf() ==> r.wf() && r@ == self@,
    {
        let n: usize = self.slots.len();
        let mut slots: Vec<Option<Slot<R>>> = Vec::new();
        let mut i: usize = 0;
        while i < n
            invariant
                i <= n == self.slots.len(),
                slots@.len() == i,
                forall|t: int|
                    0 <= t < i ==> summary_of(#[trigger] slots@[t]) == summary_of(self.slots@[t]),
            decreases n - i,
        {
            slots.push(copy_of(&self.slots[i]));
            i = i + 1;
        }
        let r = Ring { slots, cursor: self.cursor, written: self.written };
        assert(self.wf() ==> r@.slots =~= self@.slots);
        r
    }
}

impl<R: Real> Ring<R> {
    pub fn new(capacity: usize) -> (r: Self)
        requires
            capacity > 0,
        ensures
            r.wf(),
            r@ == Track::<R>::empty(capacity as nat),
    {
        let mut slots: Vec<Option<Slot<R>>> = Vec::new();
        let mut i: usize = 0;
        while i < capacity
            invariant
                i <= capacity,
                slots@.len() == i,
            decreases capacity - i,
        {
            slots.push(None);
            i = i + 1;
        }
        let r = Ring { slots, cursor: 0, written: 0 };
        assert(r@.slots =~= Seq::<Option<Summary<R>>>::empty());
        r
    }

    pub fn capacity(&self) -> (r: usize)
        ensures
            r == self@.capacity,
    {
        self.slots.len()
    }

    /// Total slots ever written, including those since overwritten.
    pub fn written(&self) -> (r: u64)
        ensures
            r == self@.written,
    {
        self.written
    }

    /// How many slots are retained.
    pub(crate) fn retained_len(&self) -> (r: usize)
        requires
            self.wf(),
        ensures
            r == self@.slots.len(),
    {
        let n: usize = self.slots.len();
        if self.written < n as u64 {
            self.written as usize
        } else {
            n
        }
    }

    pub fn push(&mut self, slot: Option<Slot<R>>)
        requires
            old(self).wf(),
            old(self)@.written < u64::MAX,
        ensures
            final(self).wf(),
            final(self)@.wf(),
            final(self)@ == old(self)@.with(summary_of(slot)),
    {
        let n: usize = self.slots.len();
        let ghost before = *self;
        let ghost new = summary_of(slot);
        self.slots.set(self.cursor, slot);
        self.cursor = if self.cursor + 1 == n {
            0
        } else {
            self.cursor + 1
        };
        self.written = self.written + 1;
        proof {
            let (was, now) = (before@.with(new), self@);
            assert(now.slots.len() == was.slots.len());
            assert forall|i: int| 0 <= i < now.slots.len() implies now.slots[i]
                == was.slots[i] by {
                assert(now.slots[i] == summary_of(self.slots@[self.place(i)]));
                if before.written < n {
                    if i < before.written {
                        assert(was.slots[i] == before@.slots[i]);
                    }
                } else if i < n - 1 {
                    assert(was.slots[i] == before@.slots[i + 1]);
                }
            }
            assert(now.slots =~= was.slots);
        }
    }

    /// The place of the `i`th retained slot.
    fn at(&self, i: usize) -> (r: usize)
        requires
            self.wf(),
            i < self@.slots.len(),
        ensures
            r == self.place(i as int),
            r < self.slots@.len(),
            self@.slots[i as int] == summary_of(self.slots@[r as int]),
    {
        let n: usize = self.slots.len();
        if self.written < n as u64 {
            i
        } else if i < n - self.cursor {
            self.cursor + i
        } else {
            i - (n - self.cursor)
        }
    }

    /// Slots oldest first. Retained slots only; the ring's own age is
    /// `written - capacity` slots discarded.
    pub fn iter_oldest_first(&self) -> (r: Vec<&Option<Slot<R>>>)
        requires
            self.wf(),
        ensures
            r@.len() == self@.slots.len(),
            forall|i: int|
                0 <= i < r@.len() ==> summary_of(*(#[trigger] r@[i])) == self@.slots[i],
    {
        let len: usize = self.retained_len();
        let mut out: Vec<&Option<Slot<R>>> = Vec::new();
        let mut i: usize = 0;
        while i < len
            invariant
                i <= len == self@.slots.len(),
                self.wf(),
                out@.len() == i,
                forall|t: int|
                    0 <= t < i ==> summary_of(*(#[trigger] out@[t])) == self@.slots[t],
            decreases len - i,
        {
            let p: usize = self.at(i);
            out.push(&self.slots[p]);
            i = i + 1;
        }
        out
    }

    /// The most recently written slot, if any.
    pub fn newest(&self) -> (r: Option<&Slot<R>>)
        requires
            self.wf(),
        ensures
            match (r, self@.newest_of()) {
                (Some(s), Some(m)) => s@ == m,
                (None, None) => true,
                _ => false,
            },
    {
        let len: usize = self.retained_len();
        if len == 0 {
            return None;
        }
        let p: usize = self.at(len - 1);
        match &self.slots[p] {
            Some(s) => Some(s),
            None => None,
        }
    }

    /// Folds every retained slot into one. This is what a coarser archive
    /// consumes when data ages up the ladder.
    pub fn consolidate(&self) -> (r: Option<Slot<R>>)
        requires
            self.wf(),
            foldable(self@.slots),
        ensures
            summary_of(r) == folded(self@.slots),
    {
        let len: usize = self.retained_len();
        let ghost all = self@.slots;
        let mut out: Option<Slot<R>> = None;
        let mut i: usize = 0;
        while i < len
            invariant
                i <= len == all.len(),
                self.wf(),
                all == self@.slots,
                foldable(all),
                summary_of(out) == folded(all.take(i as int)),
            decreases len - i,
        {
            proof {
                lemma_foldable_prefix(all, i + 1);
                assert(all.take(i + 1).drop_last() =~= all.take(i as int));
                assert(all.take(i + 1).last() == all[i as int]);
            }
            let p: usize = self.at(i);
            match &self.slots[p] {
                Some(s) => {
                    out = match out {
                        Some(acc) => {
                            let mut acc: Slot<R> = acc;
                            acc.merge(s);
                            Some(acc)
                        },
                        None => Some(s.clone()),
                    };
                },
                None => {},
            }
            i = i + 1;
        }
        assert(all.take(len as int) =~= all);
        out
    }

    /// Whether the retained slots are of one kind and size, and can be folded without a
    /// counter passing what can be counted.
    pub fn can_consolidate(&self) -> (r: bool)
        requires
            self.wf(),
            forall|i: int|
                0 <= i < self@.slots.len() ==> ((#[trigger] self@.slots[i]) matches Some(s)
                    ==> s.bounded()),
        ensures
            r == foldable(self@.slots),
    {
        let len: usize = self.retained_len();
        let ghost all = self@.slots;
        let mut out: Option<Slot<R>> = None;
        let mut i: usize = 0;
        while i < len
            invariant
                i <= len == all.len(),
                self.wf(),
                all == self@.slots,
                forall|j: int|
                    0 <= j < all.len() ==> ((#[trigger] all[j]) matches Some(s) ==> s.bounded()),
                foldable(all.take(i as int)),
                summary_of(out) == folded(all.take(i as int)),
                out matches Some(acc) ==> acc@.bounded(),
            decreases len - i,
        {
            proof {
                assert(all.take(i + 1).drop_last() =~= all.take(i as int));
                assert(all.take(i + 1).last() == all[i as int]);
            }
            let p: usize = self.at(i);
            match &self.slots[p] {
                Some(s) => {
                    out = match out {
                        Some(acc) => {
                            let mut acc: Slot<R> = acc;
                            if !acc.can_merge(s) {
                                proof {
                                    if foldable(all) {
                                        lemma_foldable_prefix(all, i + 1);
                                    }
                                }
                                return false;
                            }
                            proof {
                                lemma_addable(acc@, s@);
                            }
                            acc.merge(s);
                            Some(acc)
                        },
                        None => Some(s.clone()),
                    };
                },
                None => {},
            }
            i = i + 1;
        }
        assert(all.take(len as int) =~= all);
        true
    }

    /// The observations behind the retained slots.
    pub(crate) fn observations(&self, Ghost(shape): Ghost<Shape>) -> (r: u64)
        requires
            self.wf(),
            all_fit(self@.slots, shape),
            counts_of(self@.slots) <= u64::MAX,
        ensures
            r == counts_of(self@.slots),
    {
        let len: usize = self.retained_len();
        let ghost all = self@.slots;
        let mut sum: u64 = 0;
        let mut i: usize = 0;
        while i < len
            invariant
                i <= len == all.len(),
                self.wf(),
                all == self@.slots,
                all_fit(all, shape),
                counts_of(all) <= u64::MAX,
                sum == counts_of(all.take(i as int)),
            decreases len - i,
        {
            let p: usize = self.at(i);
            proof {
                assert(fits(all[i as int], shape));
                lemma_counts_of_prefix(all, i + 1);
                assert(all.take(i + 1).drop_last() =~= all.take(i as int));
            }
            match &self.slots[p] {
                Some(s) => {
                    sum = sum + s.count();
                },
                None => {},
            }
            i = i + 1;
        }
        assert(all.take(len as int) =~= all);
        sum
    }

    /// Whether the retained window is too sparse to be trusted, against the
    /// archive's declared `xff` — the tolerated fraction of unknown slots.
    pub fn is_unknown(&self, xff: R) -> (r: bool)
        requires
            self.wf(),
        ensures
            r == self@.sparse(xff),
    {
        let len: usize = self.retained_len();
        if len == 0 {
            return true;
        }
        let ghost all = self@.slots;
        let mut unknown: u64 = 0;
        let mut i: usize = 0;
        while i < len
            invariant
                i <= len == all.len(),
                self.wf(),
                all == self@.slots,
                unknown <= i,
                unknown == absent(all.take(i as int)),
            decreases len - i,
        {
            proof {
                assert(all.take(i + 1).drop_last() =~= all.take(i as int));
                assert(all.take(i + 1).last() == all[i as int]);
            }
            let p: usize = self.at(i);
            if self.slots[p].is_none() {
                unknown = unknown + 1;
            }
            i = i + 1;
        }
        assert(all.take(len as int) =~= all);
        xff.less(R::from_count(unknown).over(R::from_count(len as u64)))
    }
}

/// The first slots hold no more observations than all of them.
proof fn lemma_counts_of_prefix<F: Arith>(slots: Seq<Option<Summary<F>>>, upto: int)
    requires
        0 <= upto <= slots.len(),
    ensures
        counts_of(slots.take(upto)) <= counts_of(slots),
    decreases slots.len(),
{
    if upto == slots.len() {
        assert(slots.take(upto) =~= slots);
    } else {
        lemma_counts_of_prefix(slots.drop_last(), upto);
        assert(slots.drop_last().take(upto) =~= slots.take(upto));
    }
}

/// What can be folded whole can be folded up to any place.
pub proof fn lemma_foldable_prefix<F: Arith>(slots: Seq<Option<Summary<F>>>, upto: int)
    requires
        0 <= upto <= slots.len(),
        foldable(slots),
    ensures
        foldable(slots.take(upto)),
    decreases slots.len(),
{
    if upto == slots.len() {
        assert(slots.take(upto) =~= slots);
    } else {
        lemma_foldable_prefix(slots.drop_last(), upto);
        assert(slots.drop_last().take(upto) =~= slots.take(upto));
    }
}

} // verus!
