//! A ring holds the last of what was written to it, and nothing else.

use vstd::prelude::*;

use crate::arith::{Arith, Real};
use crate::exact::Exact;
use crate::laws::scalars::lemma_times_quotient;
use crate::ring::{absent, count_of, counts_of, exceeds, foldable, folded, Track};
use crate::slot::{lemma_addable, summary_of, Slot, Summary};

verus! {

/// The ring after the slots were written to it, one after the other.
pub open spec fn filled<F: Arith>(track: Track<F>, slots: Seq<Option<Summary<F>>>) -> Track<F>
    decreases slots.len(),
{
    if slots.len() == 0 {
        track
    } else {
        filled(track, slots.drop_last()).with(slots.last())
    }
}

/// The last `n` of a sequence, or all of it where it is shorter.
pub open spec fn last_of<T>(all: Seq<T>, n: nat) -> Seq<T> {
    if all.len() <= n {
        all
    } else {
        all.skip(all.len() - n)
    }
}

/// A ring holds the last slots written to it, as many as there is room for: its
/// capacity never changes, and every slot ever written is counted.
pub proof fn law_ring_holds_the_last<F: Arith>(
    track: Track<F>,
    slots: Seq<Option<Summary<F>>>,
)
    requires
        track.wf(),
    ensures
        filled(track, slots).wf(),
        filled(track, slots).capacity == track.capacity,
        filled(track, slots).written == track.written + slots.len(),
        filled(track, slots).slots == last_of(track.slots + slots, track.capacity),
    decreases slots.len(),
{
    let now = filled(track, slots);
    if slots.len() == 0 {
        assert(track.slots + slots =~= track.slots);
    } else {
        let before = slots.drop_last();
        law_ring_holds_the_last(track, before);
        let was = filled(track, before);
        assert((track.slots + slots).drop_last() =~= track.slots + before);
        assert(now.slots =~= last_of(track.slots + slots, track.capacity));
    }
}

/// Once as many slots were written as a ring has room for, nothing of what it held
/// before is in it, by any path.
pub proof fn law_what_is_overwritten_is_gone<F: Arith>(
    a: Track<F>,
    b: Track<F>,
    slots: Seq<Option<Summary<F>>>,
)
    requires
        a.wf(),
        b.wf(),
        a.capacity == b.capacity,
        slots.len() >= a.capacity,
    ensures
        filled(a, slots).slots == last_of(slots, a.capacity),
        filled(a, slots).slots == filled(b, slots).slots,
{
    law_ring_holds_the_last(a, slots);
    law_ring_holds_the_last(b, slots);
    assert(last_of(a.slots + slots, a.capacity) =~= last_of(slots, a.capacity));
    assert(last_of(b.slots + slots, a.capacity) =~= last_of(slots, a.capacity));
}

/// The newest slot is the one written last.
pub proof fn law_newest_is_the_last_written<F: Arith>(track: Track<F>, slot: Option<Summary<F>>)
    requires
        track.wf(),
    ensures
        track.with(slot).newest_of() == slot,
        track.with(slot).wf(),
{
}

/// Slots without data fold to nothing. They are not a zero.
pub proof fn law_absent_slots_fold_to_nothing<F: Arith>(slots: Seq<Option<Summary<F>>>)
    ensures
        folded(slots) is None <==> forall|i: int|
            0 <= i < slots.len() ==> (#[trigger] slots[i]) is None,
        folded(slots) is None <==> absent(slots) == slots.len(),
        absent(slots) <= slots.len(),
    decreases slots.len(),
{
    if slots.len() > 0 {
        let before = slots.drop_last();
        law_absent_slots_fold_to_nothing(before);
        if folded(slots) is None {
            assert forall|i: int| 0 <= i < slots.len() implies (#[trigger] slots[i]) is None by {
                if i < before.len() {
                    assert(before[i] == slots[i]);
                }
            }
        }
        if forall|i: int| 0 <= i < slots.len() ==> (#[trigger] slots[i]) is None {
            assert forall|i: int| 0 <= i < before.len() implies (#[trigger] before[i]) is None by {
                assert(before[i] == slots[i]);
            }
            assert(slots[slots.len() - 1] is None);
        }
    }
}

/// Slots without data change nothing of what the others fold to.
pub proof fn law_absent_slots_change_nothing<F: Arith>(slots: Seq<Option<Summary<F>>>)
    ensures
        folded(slots.push(None)) == folded(slots),
{
    assert(slots.push(None).drop_last() =~= slots);
}

/// The slots that carry data, in order.
pub open spec fn known<F>(slots: Seq<Option<Summary<F>>>) -> Seq<Option<Summary<F>>>
    decreases slots.len(),
{
    if slots.len() == 0 {
        slots
    } else {
        let before = known(slots.drop_last());
        if slots.last() is Some {
            before.push(slots.last())
        } else {
            before
        }
    }
}

/// Slots fold to the merge of exactly those that carry data, in order.
pub proof fn law_a_fold_is_of_the_known_slots<F: Arith>(slots: Seq<Option<Summary<F>>>)
    ensures
        folded(slots) == folded(known(slots)),
        known(slots).len() + absent(slots) == slots.len(),
    decreases slots.len(),
{
    if slots.len() > 0 {
        let before = slots.drop_last();
        law_a_fold_is_of_the_known_slots(before);
        if slots.last() is Some {
            assert(known(slots).drop_last() =~= known(before));
        }
    }
}

/// Slots are folded oldest first: nothing folds to nothing, one more slot with data is
/// merged behind the others, and one without changes nothing, in whatever arithmetic.
pub proof fn law_slots_fold_in_order<F: Arith>(slots: Seq<Option<Summary<F>>>, s: Summary<F>)
    ensures
        folded(Seq::<Option<Summary<F>>>::empty()) is None,
        folded(slots.push(None)) == folded(slots),
        folded(slots) is None ==> folded(slots.push(Some(s))) == Some(s),
        folded(slots) matches Some(a) ==> folded(slots.push(Some(s))) == Some(a.joined(s)),
{
    assert(slots.push(None).drop_last() =~= slots);
    assert(slots.push(Some(s)).drop_last() =~= slots);
}

/// Slots can be folded where each merge on the way can be done, in whatever arithmetic.
pub proof fn law_slots_can_be_folded_where_they_can_be_merged<F: Arith>(
    slots: Seq<Option<Summary<F>>>,
    s: Summary<F>,
)
    ensures
        foldable(Seq::<Option<Summary<F>>>::empty()),
        foldable(slots.push(None)) <==> foldable(slots),
        foldable(slots.push(Some(s))) <==> foldable(slots) && match folded(slots) {
            Some(a) => a.addable(s),
            None => true,
        },
{
    assert(slots.push(None).drop_last() =~= slots);
    assert(slots.push(Some(s)).drop_last() =~= slots);
}

/// A slot that is written is there as it was written, and one without data is absent.
pub proof fn law_a_written_slot_is_there<R: Real>(slot: Slot<R>)
    ensures
        summary_of(Some(slot)) == Some(slot@),
        summary_of(None::<Slot<R>>) is None,
{
}

/// A ring is too sparse where nothing was written to it, or the share of its slots that
/// carry no data is above the tolerated one, in whatever arithmetic.
pub proof fn law_a_ring_is_sparse_past_its_tolerance<F: Arith>(track: Track<F>, xff: F)
    ensures
        track.sparse(xff) <==> track.slots.len() == 0 || xff.lt(
            F::of_nat(absent(track.slots)).quot(F::of_nat(track.slots.len())),
        ),
        exceeds(absent(track.slots), track.slots.len(), xff) <==> xff.lt(
            F::of_nat(absent(track.slots)).quot(F::of_nat(track.slots.len())),
        ),
{
}

/// A share of `part` in `whole` is more than `limit` where `part` is more than that much
/// of `whole`; just that much is not more.
pub proof fn law_share_is_of_the_whole(part: nat, whole: nat, limit: real)
    requires
        whole > 0,
    ensures
        exceeds(part, whole, Exact::Finite(limit)) <==> (part as real) > limit * (whole as real),
{
    let (a, n) = (part as real, whole as real);
    let q = a / n;
    lemma_times_quotient(a, n);
    assert(limit < q <==> limit * n < a) by (nonlinear_arith)
        requires
            n * q == a,
            n > 0real,
    ;
}

/// A ring that nothing was written to has its capacity, and nothing else.
pub proof fn law_a_new_ring_is_empty<F: Arith>(capacity: nat)
    ensures
        Track::<F>::empty(capacity).capacity == capacity,
        Track::<F>::empty(capacity).written == 0,
        Track::<F>::empty(capacity).slots.len() == 0,
        Track::<F>::empty(capacity).newest_of() is None,
{
}

/// What slots fold to counts all of their observations.
pub proof fn law_every_observation_is_counted<F: Arith>(slots: Seq<Option<Summary<F>>>)
    requires
        foldable(slots),
    ensures
        count_of(folded(slots)) == counts_of(slots),
    decreases slots.len(),
{
    if slots.len() > 0 {
        law_every_observation_is_counted(slots.drop_last());
        match (folded(slots.drop_last()), slots.last()) {
            (Some(a), Some(b)) => {
                lemma_addable(a, b);
            },
            _ => {},
        }
    }
}

/// A ring nothing was written to is unknown. So is one without data, unless
/// everything is tolerated; and one that lacks nothing is known.
pub proof fn law_sparse_follows_the_tolerance(track: Track<Exact>, xff: real)
    requires
        0real <= xff <= 1real,
    ensures
        track.slots.len() == 0 ==> track.sparse(Exact::Finite(xff)),
        track.slots.len() > 0 ==> (track.sparse(Exact::Finite(xff)) <==> (absent(
            track.slots,
        ) as real) > xff * (track.slots.len() as real)),
        track.slots.len() > 0 && absent(track.slots) == 0 ==> !track.sparse(Exact::Finite(xff)),
        track.slots.len() > 0 && absent(track.slots) == track.slots.len() && xff < 1real
            ==> track.sparse(Exact::Finite(xff)),
{
    if track.slots.len() > 0 {
        let (a, n) = (absent(track.slots) as real, track.slots.len() as real);
        let q = a / n;
        assert(n * q == a) by {
            lemma_times_quotient(a, n);
        }
        assert(xff < q <==> xff * n < a) by (nonlinear_arith)
            requires
                n * q == a,
                n > 0real,
        ;
        assert(xff * n >= 0real) by (nonlinear_arith)
            requires
                xff >= 0real,
                n > 0real,
        ;
        assert(xff < 1real ==> xff * n < n) by (nonlinear_arith)
            requires
                n > 0real,
        ;
    }
}

} // verus!
