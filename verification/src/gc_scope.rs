use vstd::prelude::*;

use vstd::multiset::Multiset;

use crate::gc::Gc;
use crate::gc_alloc_err::GcAllocErr;
use crate::gc_box::GcBox;
use crate::gc_ref_cell::GcRefCell;
use crate::gc_state::GcState;
use crate::gc_state::gc_ids;
use crate::trace::Trace;

verus! {

broadcast use vstd::multiset::group_multiset_axioms;

/// A scope for garbage collection.
///
/// It lets you allocate managed values whose payloads may hold handles to
/// one another, cycles included. Handles held by the client are rooted
/// and pin their boxes; `collect_garbage` reclaims every box unreachable
/// from the rooted ones, and `teardown` releases whatever is left.
pub struct GcScope<T> {
    /// The collector state this scope owns.
    pub state: GcState<T>,
}

impl<T: Trace> GcScope<T> {
    /// Opens an empty collection scope.
    pub fn new() -> (s: GcScope<T>)
        ensures
            s.state.wf(),
            s.state.boxes@.len() == 0,
            s.state.allocated_bytes == 0,
            s.state.freed@ == 0,
    {
        GcScope { state: GcState::new() }
    }

    /// Allocates a plain leaf value in this scope: a payload with no
    /// handles in it. Fails, with no effect, only when the byte
    /// accounting has no room for one more box.
    pub fn allocate(&mut self, value: T) -> (r: Result<Gc, GcAllocErr>)
        requires
            old(self).state.wf(),
        ensures
            final(self).state.wf(),
            r is Ok <==> old(self).state.allocated_bytes + vstd::layout::size_of::<GcBox<T>>()
                <= usize::MAX,
            r matches Ok(h) ==> GcState::alloc_post(
                old(self).state,
                final(self).state,
                value,
                Seq::<Gc>::empty(),
                h,
            ),
            r is Err ==> *final(self) == *old(self) && r == Err::<Gc, GcAllocErr>(
                GcAllocErr::Exhausted,
            ),
    {
        let cell = GcRefCell::new(value);
        proof {
            assert(gc_ids(cell.refs@) == Multiset::<int>::empty());
            assert(gc_ids(cell.refs@).subset_of(old(self).state.handles@));
        }
        self.state.allocate(cell)
    }

    /// Allocates a payload cell, handles and all, in this scope. The
    /// handles inside the cell are unrooted on the way in; the returned
    /// handle is the new box's one root.
    pub fn allocate_cell(&mut self, cell: GcRefCell<T>) -> (r: Result<Gc, GcAllocErr>)
        requires
            old(self).state.wf(),
            old(self).state.cell_allocatable(cell),
        ensures
            final(self).state.wf(),
            r is Ok <==> old(self).state.allocated_bytes + vstd::layout::size_of::<GcBox<T>>()
                <= usize::MAX,
            r matches Ok(h) ==> GcState::alloc_post(
                old(self).state,
                final(self).state,
                cell.value,
                cell.refs@,
                h,
            ),
            r is Err ==> *final(self) == *old(self) && r == Err::<Gc, GcAllocErr>(
                GcAllocErr::Exhausted,
            ),
    {
        self.state.allocate(cell)
    }

    /// Runs a synchronous mark-and-sweep collection: afterwards exactly
    /// the boxes that were reachable from a root are alive, untouched.
    pub fn collect_garbage(&mut self)
        requires
            old(self).state.wf(),
        ensures
            final(self).state.wf(),
            GcState::collect_post(old(self).state, final(self).state),
    {
        self.state.collect_garbage()
    }

    /// Creates a new rooted handle for the box `h` points to.
    pub fn clone_handle(&mut self, h: &Gc) -> (h2: Gc)
        requires
            old(self).state.wf(),
            old(self).state.live(h.id as int),
            old(self).state.boxv(h.id as int).roots < usize::MAX,
        ensures
            final(self).state.wf(),
            h2.id == h.id,
            h2.rooted,
            final(self).state.valid_handle(h2),
            GcState::clone_post(old(self).state, final(self).state, h.id as int),
    {
        self.state.clone_handle(h)
    }

    /// Gives a handle back; a rooted one returns its root contribution.
    pub fn drop_handle(&mut self, h: Gc)
        requires
            old(self).state.wf(),
            old(self).state.valid_handle(h),
        ensures
            final(self).state.wf(),
            h.rooted ==> GcState::drop_post(old(self).state, final(self).state, h.id as int),
            !h.rooted ==> *final(self) == *old(self),
    {
        self.state.drop_handle(h)
    }

    /// Shared access to the leaf data of the box `h` points to.
    pub fn get(&self, h: &Gc) -> (v: &T)
        requires
            self.state.live(h.id as int),
        ensures
            *v == self.state.boxv(h.id as int).cell.value,
    {
        self.state.get(h)
    }

    /// The root count of the box `h` points to.
    pub fn root_count(&self, h: &Gc) -> (n: usize)
        requires
            self.state.live(h.id as int),
        ensures
            n == self.state.boxv(h.id as int).roots,
    {
        self.state.root_count(h)
    }

    /// Replaces the leaf value of the box `h` points to.
    pub fn set_value(&mut self, h: &Gc, v: T)
        requires
            old(self).state.wf(),
            old(self).state.live(h.id as int),
        ensures
            final(self).state.wf(),
            final(self).state.boxes@ == old(self).state.boxes@.update(
                h.id as int,
                Some(
                    GcBox {
                        cell: GcRefCell { value: v, ..old(self).state.boxv(h.id as int).cell },
                        ..old(self).state.boxv(h.id as int)
                    },
                ),
            ),
            final(self).state.handles@ == old(self).state.handles@,
            final(self).state.allocated_bytes == old(self).state.allocated_bytes,
            final(self).state.freed == old(self).state.freed,
    {
        self.state.set_value(h, v)
    }

    /// Replaces the edge at position `j` of the box `h` points to by one
    /// aimed where `r` points, consuming and unrooting `r`.
    pub fn set_ref(&mut self, h: &Gc, j: usize, r: Gc)
        requires
            old(self).state.wf(),
            old(self).state.live(h.id as int),
            j < old(self).state.refs_of(h.id as int).len(),
            r.rooted,
            old(self).state.valid_handle(r),
        ensures
            final(self).state.wf(),
            GcState::edge_change_post(
                old(self).state,
                final(self).state,
                h.id as int,
                r.id as int,
            ),
            final(self).state.refs_of(h.id as int) == old(self).state.refs_of(h.id as int).update(
                j as int,
                Gc { id: r.id, rooted: false },
            ),
    {
        self.state.set_ref(h, j, r)
    }

    /// Appends one more edge to the box `h` points to, aimed where `r`
    /// points, consuming and unrooting `r`.
    pub fn push_ref(&mut self, h: &Gc, r: Gc)
        requires
            old(self).state.wf(),
            old(self).state.live(h.id as int),
            r.rooted,
            old(self).state.valid_handle(r),
        ensures
            final(self).state.wf(),
            GcState::edge_change_post(
                old(self).state,
                final(self).state,
                h.id as int,
                r.id as int,
            ),
            final(self).state.refs_of(h.id as int) == old(self).state.refs_of(h.id as int).push(
                Gc { id: r.id, rooted: false },
            ),
    {
        self.state.push_ref(h, r)
    }

    /// A rooted handle for the box the edge at position `j` of box `h`
    /// points to.
    pub fn clone_ref(&mut self, h: &Gc, j: usize) -> (h2: Gc)
        requires
            old(self).state.wf(),
            old(self).state.live(h.id as int),
            j < old(self).state.refs_of(h.id as int).len(),
            old(self).state.boxv(
                old(self).state.refs_of(h.id as int)[j as int].id as int,
            ).roots < usize::MAX,
        ensures
            final(self).state.wf(),
            h2.rooted,
            h2.id == old(self).state.refs_of(h.id as int)[j as int].id,
            final(self).state.valid_handle(h2),
            GcState::clone_post(old(self).state, final(self).state, h2.id as int),
    {
        self.state.clone_ref(h, j)
    }

    /// How many bytes of managed boxes are currently live.
    pub fn allocated_bytes(&self) -> (b: usize)
        ensures
            b == self.state.allocated_bytes,
    {
        self.state.allocated_bytes
    }

    /// How many boxes are currently live.
    pub fn live_boxes(&self) -> (c: usize)
        ensures
            c == GcState::<T>::live_count(self.state.boxes@, self.state.n()),
    {
        self.state.live_boxes()
    }

    /// Tears the scope down, dropping every remaining box, and returns
    /// how many there were; with the `freed` accounting this covers every
    /// box ever allocated exactly once.
    pub fn teardown(self) -> (dropped: usize)
        requires
            self.state.wf(),
        ensures
            dropped == GcState::<T>::live_count(self.state.boxes@, self.state.n()),
            dropped + self.state.freed@ == self.state.boxes@.len(),
    {
        self.state.teardown()
    }
}

} // verus!
