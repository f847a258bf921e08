//! What a slot holds, and how many bytes that takes.

use vstd::prelude::*;

verus! {

#[derive(Clone, Copy, Debug, PartialEq, Eq, Structural)]
pub enum SlotKind {
    Scalar,
    Categorical,
    Vector,
    Clusters,
}

/// Storage quantisation for vector slots. Declared per archive, because at
/// dim 768 the difference between `F32` and `Int8` is 3 KB versus 768 B per
/// slot and decides whether a wide ladder is affordable at all.
#[derive(Clone, Copy, Debug, PartialEq, Eq, Structural)]
pub enum Quant {
    F32,
    F16,
    /// One byte per component plus a per-slot scale, amortised in `slot_bytes`.
    Int8,
}

impl Quant {
    /// Bytes per component.
    pub open spec fn width(self) -> nat {
        match self {
            Quant::F32 => 4,
            Quant::F16 => 2,
            Quant::Int8 => 1,
        }
    }

    pub fn bytes(self) -> (r: usize)
        ensures
            r == self.width(),
    {
        match self {
            Quant::F32 => 4,
            Quant::F16 => 2,
            Quant::Int8 => 1,
        }
    }
}

/// The size of a slot: a scalar slot holds a count and four numbers of eight
/// bytes, a categorical one a counter of eight bytes per class, a vector one a
/// count, a sum of squares and the quantised components, and a cluster one `k`
/// vectors.
pub open spec fn slot_size(kind: SlotKind, dim: nat, classes: nat, quant: Quant, k: nat) -> nat {
    match kind {
        SlotKind::Scalar => 40,
        SlotKind::Categorical => 8 * classes,
        SlotKind::Vector => 16 + dim * quant.width(),
        SlotKind::Clusters => k * (16 + dim * quant.width()),
    }
}

/// Whether the size of a slot can be computed.
pub open spec fn slot_measurable(
    kind: SlotKind,
    dim: nat,
    classes: nat,
    quant: Quant,
    k: nat,
) -> bool {
    &&& slot_size(kind, dim, classes, quant, k) <= usize::MAX
    &&& kind is Clusters ==> 16 + dim * quant.width() <= usize::MAX
}

/// Bytes a single slot occupies, from the signal type and its parameters. The
/// store's footprint is the sum of `slots × slot_bytes` across archives, fixed
/// at create time and carried in the header.
///
/// `dim` and `classes` are ignored where they do not apply.
pub fn slot_bytes(kind: SlotKind, dim: usize, classes: usize, quant: Quant, k: usize) -> (r: usize)
    requires
        slot_measurable(kind, dim as nat, classes as nat, quant, k as nat),
    ensures
        r == slot_size(kind, dim as nat, classes as nat, quant, k as nat),
{
    match kind {
        SlotKind::Scalar => 8 + 8 * 4,
        SlotKind::Categorical => 8 * classes,
        SlotKind::Vector => {
            assert(dim * quant.width() <= usize::MAX);
            8 + 8 + dim * quant.bytes()
        },
        SlotKind::Clusters => {
            assert(dim * quant.width() <= usize::MAX);
            k * (8 + 8 + dim * quant.bytes())
        },
    }
}

/// Bytes a single slot occupies, where they can be computed.
pub fn checked_slot_bytes(
    kind: SlotKind,
    dim: usize,
    classes: usize,
    quant: Quant,
    k: usize,
) -> (r: Option<usize>)
    ensures
        r is Some <==> slot_measurable(kind, dim as nat, classes as nat, quant, k as nat),
        r matches Some(n) ==> n == slot_size(kind, dim as nat, classes as nat, quant, k as nat),
{
    let measurable: bool = match kind {
        SlotKind::Scalar => true,
        SlotKind::Categorical => classes.checked_mul(8).is_some(),
        SlotKind::Vector => match dim.checked_mul(quant.bytes()) {
            Some(v) => v.checked_add(16).is_some(),
            None => false,
        },
        SlotKind::Clusters => match dim.checked_mul(quant.bytes()) {
            Some(v) => match v.checked_add(16) {
                Some(each) => k.checked_mul(each).is_some(),
                None => false,
            },
            None => false,
        },
    };
    if measurable {
        Some(slot_bytes(kind, dim, classes, quant, k))
    } else {
        None
    }
}

} // verus!
