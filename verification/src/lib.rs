//! Planning of n-dimensional strided memory rearrangements.
//!
//! Two buffers share a logical shape and differ in their byte strides and
//! base offsets. [`Rearranging::new`] turns the two [`Layout`]s into a compact
//! scheme: axes of length one are dropped, the rest are put into a canonical
//! order, contiguous inner axes are absorbed into the copy unit and adjacent
//! contiguous axes are fused. The scheme is a flat buffer of words from which
//! an executor resolves, for every linear index, the two byte offsets of one
//! elementary copy.
//!
//! - [`layout`], [`axis`], [`error`]: the values that go in.
//! - [`scheme`]: the scheme, its model [`Scheme`] and its accessors.
//! - [`order`], [`planner`]: the canonical order and the planning itself.
//! - [`redistribute`]: splitting the unit of a scheme.
//! - [`walk`]: the offsets of each copy, for an executor.
//! - [`laws`]: what holds of every planned scheme.
//! - [`transfer`], [`radix`], [`elements`]: what a scheme copies, and the
//!   proof that it is what the two layouts ask for.
//! - [`perm`]: lemmas on sequences that hold the same items.

pub mod error;
pub mod layout;
pub mod axis;
pub mod scheme;
pub mod order;
pub mod perm;
pub mod planner;
pub mod redistribute;
pub mod walk;
pub mod laws;
pub mod transfer;
pub mod radix;
pub mod elements;
mod seqs;

pub use error::SchemeError;
pub use layout::{Layout, LayoutView};
pub use axis::{Axis, Dim};
pub use scheme::{Rearranging, Scheme};
