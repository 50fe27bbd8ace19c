use vstd::prelude::*;

verus! {

/// A handle to a value managed by a garbage-collected scope.
///
/// A handle is created either by allocating a new value with
/// `GcScope::allocate` or by cloning an existing handle with
/// `GcScope::clone_handle`; both return it in the rooted state.
///
/// While `rooted` is true the handle contributes one unit to the root
/// count of the box it points to: as long as such a handle is held by the
/// client, its value is kept alive across collections. A handle stored
/// inside another managed value is unrooted (the reachability of the
/// containing box keeps it alive instead); the transfer happens when the
/// handle moves into a managed location (`allocate`, `push_ref`, `set_ref`)
/// and back when a handle is produced out of one (`clone_ref`).
///
/// Disposing of a rooted handle goes through `GcScope::drop_handle`, which
/// gives its root contribution back.
#[derive(Debug)]
pub struct Gc {
    /// Index of the managed box this handle points to.
    pub id: usize,
    /// Whether this handle currently acts as a root for its box.
    pub rooted: bool,
}

impl Gc {
    /// Makes the handle for a freshly allocated box: rooted by construction.
    pub fn new(id: usize) -> (h: Gc)
        ensures
            h.id == id,
            h.rooted,
    {
        Gc { id, rooted: true }
    }
}

} // verus!
