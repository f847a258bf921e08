//! Bounded temporal memory: several resolutions of the same signal in one store
//! whose footprint follows from its declaration and never changes, consolidating
//! as observations age, with reads gated per resolution.
//!
//! [`Store`] is the store and [`Declaration`] the contract it is made from. What it
//! is made of can be used on its own: the accumulators [`Welford`], [`Categorical`],
//! [`VecAccum`] and [`MicroCentroids`], the [`Slot`] that holds one of them, and the
//! [`Ring`] that holds slots.
//!
//! Everything in a [`Slot`] but the micro-centroids merges associatively, which is
//! what makes consolidation a parallel reduce rather than a serial pass, and what
//! lets a parent slot be computed from children instead of from raw samples.
//!
//! The numbers are the caller's: any [`Real`] will do, and [`Fixed`] is one.

pub mod arith;
pub mod categorical;
pub mod channel;
pub mod clusters;
pub mod decl;
pub mod exact;
pub mod fixed;
pub mod grant;
pub mod kind;
pub mod ladder;
pub mod laws;
pub mod reading;
pub mod ring;
pub mod slot;
pub mod step;
pub mod store;
pub mod vector;
pub mod welford;

pub use crate::arith::{Arith, Real};
pub use crate::categorical::Categorical;
pub use crate::channel::Observation;
pub use crate::clusters::MicroCentroids;
pub use crate::decl::{ArchiveSpec, DeclError, Declaration, SignalSpec, HEADER_BYTES};
pub use crate::exact::Exact;
pub use crate::fixed::Fixed;
pub use crate::grant::{Grant, Refusal};
pub use crate::kind::{checked_slot_bytes, slot_bytes, Quant, SlotKind};
pub use crate::reading::{ContextSurface, DecisionQuote, Reading, Window};
pub use crate::ring::Ring;
pub use crate::slot::Slot;
pub use crate::step::StepBuffer;
pub use crate::store::Store;
pub use crate::vector::VecAccum;
pub use crate::welford::Welford;
