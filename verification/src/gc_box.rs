use vstd::prelude::*;

use crate::gc::Gc;
use crate::gc_ref_cell::GcRefCell;

verus! {

/// The per-allocation header of the collector: the root count, the mark
/// bit, and the payload cell.
///
/// Boxes with a non-zero root count are the starting points of the mark
/// phase. The mark bit is used within a single collection to guarantee
/// that every box is visited once, which is what makes cycles terminate;
/// at every quiescent point it is false.
pub struct GcBox<T> {
    /// Counter of the rooted handles and rooted cells pinning this box.
    pub roots: usize,
    /// True only transiently, during the mark phase of a collection.
    pub marked: bool,
    /// The payload and its outgoing edges.
    pub cell: GcRefCell<T>,
}

impl<T> GcBox<T> {
    /// Makes the box for a payload that was just unrooted into the heap:
    /// one root (the handle about to be returned), not marked.
    pub fn new(cell: GcRefCell<T>) -> (b: GcBox<T>)
        ensures
            b.roots == 1,
            !b.marked,
            b.cell == cell,
    {
        GcBox { roots: 1, marked: false, cell }
    }

    /// Checked increment of the root count.
    ///
    /// Overflow would corrupt the accounting silently, so it is excluded
    /// outright rather than wrapped.
    pub fn inc_roots(&mut self)
        requires
            old(self).roots < usize::MAX,
        ensures
            final(self).roots == old(self).roots + 1,
            final(self).marked == old(self).marked,
            final(self).cell == old(self).cell,
    {
        self.roots = self.roots + 1;
    }

    /// Checked decrement of the root count.
    ///
    /// Going below zero would mean a root was given back twice; it is
    /// excluded outright rather than wrapped.
    pub fn dec_roots(&mut self)
        requires
            old(self).roots >= 1,
        ensures
            final(self).roots == old(self).roots - 1,
            final(self).marked == old(self).marked,
            final(self).cell == old(self).cell,
    {
        self.roots = self.roots - 1;
    }

    /// Clears the mark bit: the survivors of a sweep are quiescent again.
    pub fn clear_mark(&mut self)
        ensures
            !final(self).marked,
            final(self).roots == old(self).roots,
            final(self).cell == old(self).cell,
    {
        self.marked = false;
    }

    /// Marks this box and hands back the edges along which the mark signal
    /// must be propagated.
    ///
    /// If the box is already marked there is nothing to do and nothing to
    /// propagate: each box contributes exactly one traversal of its edges
    /// per collection, which is what tolerates cycles.
    pub fn mark_box(&mut self) -> (edges: Vec<usize>)
        ensures
            final(self).marked,
            final(self).roots == old(self).roots,
            final(self).cell == old(self).cell,
            old(self).marked ==> edges@ =~= Seq::<usize>::empty(),
            !old(self).marked ==> edges@ =~= old(self).cell.refs@.map_values(|g: Gc| g.id),
    {
        if self.marked {
            Vec::new()
        } else {
            self.marked = true;
            let mut edges: Vec<usize> = Vec::new();
            let mut j: usize = 0;
            while j < self.cell.refs.len()
                invariant
                    j <= self.cell.refs.len(),
                    *self == (GcBox { marked: true, ..*old(self) }),
                    edges@ =~= self.cell.refs@.take(j as int).map_values(|g: Gc| g.id),
                decreases self.cell.refs.len() - j,
            {
                edges.push(self.cell.refs[j].id);
                proof {
                    assert(self.cell.refs@.take(j + 1 as int) =~= self.cell.refs@.take(j as int).push(
                        self.cell.refs@[j as int]));
                }
                j += 1;
            }
            proof {
                assert(self.cell.refs@.take(self.cell.refs@.len() as int) =~= self.cell.refs@);
            }
            edges
        }
    }
}

} // verus!
