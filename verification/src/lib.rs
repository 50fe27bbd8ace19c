//! A scoped, precise, mark-and-sweep garbage collector for object graphs
//! that may contain cycles.
//!
//! A [`GcScope`] owns every allocation made through it. Values are allocated
//! into managed boxes and addressed through [`Gc`] handles; a handle that is
//! rooted contributes one unit to the root count of the box it points to.
//! On-demand collection ([`GcScope::collect_garbage`]) reclaims every box
//! that is unreachable from the rooted ones, cycles included; tearing the
//! scope down releases whatever is left.

mod gc;
mod gc_alloc_err;
mod gc_box;
mod gc_ref_cell;
mod gc_scope;
mod gc_state;
pub mod laws;
mod trace;

pub use gc::Gc;
pub use gc_state::gc_ids;
pub use gc_alloc_err::GcAllocErr;
pub use gc_box::GcBox;
pub use gc_ref_cell::GcRefCell;
pub use gc_scope::GcScope;
pub use gc_state::GcState;
pub use trace::Trace;
