//! Strided views over a contiguous buffer.
//!
//! A strided view is a lightweight handle `(offset, length, stride)` that
//! addresses every `stride`-th element of a backing buffer, starting at
//! `offset`, for `length` elements.  The handle does not hold the buffer:
//! every element access takes the buffer as an explicit argument, and the
//! contracts tie each access to the exact buffer position it touches.
//!
//! Views are move-only.  The partition operations (`substrides2`,
//! `substrides`, `slice`, `split_at`) consume the parent view and hand back
//! child views whose address sets are provably disjoint, so disjoint pieces
//! of one buffer can be handed to independent callers.

pub mod imm;
pub mod mut_;

pub use mut_::MutItems;
pub use mut_::Strided;
pub use mut_::Substrides;
