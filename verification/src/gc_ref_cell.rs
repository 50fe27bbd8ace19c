use vstd::prelude::*;

use crate::gc::Gc;

verus! {

/// The payload of a managed box: a mutable container holding leaf data
/// together with the handles that make up the outgoing edges of the box.
///
/// A cell freshly built on the stack is rooted (`rooted == true`) and every
/// handle pushed into it keeps its own root contribution. When the cell
/// moves into a managed box (`GcScope::allocate`) it is unrooted and so are
/// the handles it holds: from then on the reachability of the containing
/// box is what keeps their targets alive, and the cell's interior is
/// mutated through the scope (`set_ref`, `push_ref`, `clone_ref`), which
/// performs the matching root-count transfers.
pub struct GcRefCell<T> {
    /// True while the cell lives on the stack; false inside a managed box.
    pub rooted: bool,
    /// The leaf data of the payload.
    pub value: T,
    /// The handles held by this payload, one per outgoing edge.
    pub refs: Vec<Gc>,
}

impl<T> GcRefCell<T> {
    /// Makes a stand-alone cell around `value`, rooted and without edges.
    pub fn new(value: T) -> (c: GcRefCell<T>)
        ensures
            c.rooted,
            c.value == value,
            c.refs@ =~= Seq::<Gc>::empty(),
    {
        GcRefCell { rooted: true, value, refs: Vec::new() }
    }

    /// Shared access to the leaf data.
    pub fn borrow(&self) -> (v: &T)
        ensures
            *v == self.value,
    {
        &self.value
    }

    /// Exclusive access to the leaf data of a stack cell.
    ///
    /// Only a rooted cell — one still on the stack — is in this
    /// function's domain: its handles are rooted already, so no root
    /// transfer is needed for the duration of the borrow. A cell inside a
    /// managed box is unrooted and is mutated through the scope instead
    /// (`set_value`, `set_ref`, `push_ref`, `clone_ref`), whose contracts
    /// perform the matching root-count transfers atomically.
    pub fn borrow_mut(&mut self) -> (v: &mut T)
        requires
            old(self).rooted,
        ensures
            *v == old(self).value,
            final(self).value == *final(v),
            final(self).rooted == old(self).rooted,
            final(self).refs == old(self).refs,
    {
        &mut self.value
    }

    /// Moves the handle `h` into this cell as one more edge.
    ///
    /// The rooting of the handle must agree with the rooting of the cell:
    /// a stack cell holds rooted handles (its contents behave as roots
    /// until the cell is allocated), a cell inside a managed box holds
    /// unrooted ones.
    pub fn push_ref(&mut self, h: Gc)
        requires
            h.rooted == old(self).rooted,
        ensures
            final(self).rooted == old(self).rooted,
            final(self).value == old(self).value,
            final(self).refs@ == old(self).refs@.push(h),
    {
        self.refs.push(h);
    }

    /// Replaces the leaf data, leaving the rooting state and the edges as
    /// they are. The replaced value is leaf data: it holds no handles, so
    /// no root count is touched by discarding it.
    pub fn set_value(&mut self, v: T)
        ensures
            final(self).value == v,
            final(self).rooted == old(self).rooted,
            final(self).refs == old(self).refs,
    {
        self.value = v;
    }

    /// Replaces the edge at position `j` by the handle `h`, under the same
    /// rooting discipline as `push_ref`. The replaced handle is discarded;
    /// being unrooted inside the cell, it contributed nothing.
    pub fn set_ref(&mut self, j: usize, h: Gc)
        requires
            j < old(self).refs@.len(),
            h.rooted == old(self).rooted,
        ensures
            final(self).rooted == old(self).rooted,
            final(self).value == old(self).value,
            final(self).refs@ == old(self).refs@.update(j as int, h),
    {
        self.refs[j] = h;
    }
}

} // verus!
