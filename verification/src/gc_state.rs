use vstd::prelude::*;

use vstd::multiset::Multiset;

use crate::gc::Gc;
use crate::gc_alloc_err::GcAllocErr;
use crate::gc_box::GcBox;
use crate::gc_ref_cell::GcRefCell;

verus! {

broadcast use vstd::multiset::group_multiset_axioms;

/// The multiset of target ids of a run of handles: how many of them point
/// at each box.
pub open spec fn gc_ids(s: Seq<Gc>) -> Multiset<int>
    decreases s.len(),
{
    if s.len() == 0 {
        Multiset::empty()
    } else {
        gc_ids(s.drop_first()).insert(s.first().id as int)
    }
}

/// Peeling the handle at position `j` off the tail of a run.
proof fn lemma_gc_ids_skip(s: Seq<Gc>, j: int)
    requires
        0 <= j < s.len(),
    ensures
        gc_ids(s.skip(j)) == gc_ids(s.skip(j + 1)).insert(s[j].id as int),
{
    assert(s.skip(j).drop_first() =~= s.skip(j + 1));
    assert(s.skip(j).first() == s[j]);
}

/// Appending a handle to a run adds its target to the multiset.
proof fn lemma_gc_ids_push(s: Seq<Gc>, x: Gc)
    ensures
        gc_ids(s.push(x)) == gc_ids(s).insert(x.id as int),
    decreases s.len(),
{
    assert(gc_ids(s.push(x)) == gc_ids(s.push(x).drop_first()).insert(
        s.push(x).first().id as int,
    ));
    if s.len() == 0 {
        assert(s.push(x).drop_first() =~= Seq::<Gc>::empty());
        assert(s.push(x).first() == x);
        assert(gc_ids(s) == Multiset::<int>::empty());
        assert(gc_ids(Seq::<Gc>::empty()) == Multiset::<int>::empty());
    } else {
        assert(s.push(x).drop_first() =~= s.drop_first().push(x));
        assert(s.push(x).first() == s.first());
        lemma_gc_ids_push(s.drop_first(), x);
        assert(gc_ids(s) == gc_ids(s.drop_first()).insert(s.first().id as int));
        assert(gc_ids(s.drop_first()).insert(x.id as int).insert(s.first().id as int) =~= gc_ids(
            s.drop_first(),
        ).insert(s.first().id as int).insert(x.id as int));
    }
}

/// The owner of every managed box of a scope, and of the bytes-allocated
/// counter.
///
/// Boxes live in slots; a slot is `None` once its box has been swept or
/// never again after that, so a slot index identifies one allocation for
/// the whole life of the scope. `handles` is the ghost record of the
/// rooted handles issued and not yet given back, counted per target box:
/// the central invariant (`wf`) says the root count of every live box
/// equals that number.
pub struct GcState<T> {
    /// Running sum of the sizes of the live boxes.
    pub allocated_bytes: usize,
    /// One slot per allocation ever made; `None` once swept.
    pub boxes: Vec<Option<GcBox<T>>>,
    /// Ghost: target box of every outstanding rooted handle.
    pub handles: Ghost<Multiset<int>>,
    /// Ghost: how many boxes have been swept so far.
    pub freed: Ghost<nat>,
}

impl<T> GcState<T> {
    /// Number of slots, that is of boxes ever allocated.
    pub open spec fn n(&self) -> int {
        self.boxes@.len() as int
    }

    /// Whether slot `i` holds a live box.
    pub open spec fn live(&self, i: int) -> bool {
        0 <= i < self.n() && self.boxes@[i] is Some
    }

    /// The box in slot `i`.
    pub open spec fn boxv(&self, i: int) -> GcBox<T>
        recommends
            self.live(i),
    {
        self.boxes@[i]->Some_0
    }

    /// The handles held by the payload of box `i`: its outgoing edges.
    pub open spec fn refs_of(&self, i: int) -> Seq<Gc>
        recommends
            self.live(i),
    {
        self.boxv(i).cell.refs@
    }

    /// Box `a` holds a handle to box `b`.
    pub open spec fn edge(&self, a: int, b: int) -> bool {
        &&& self.live(a)
        &&& exists|j: int| 0 <= j < self.refs_of(a).len() && self.refs_of(a)[j].id == b
    }

    /// Box `b` can be reached from box `a` along at most `k` edges.
    pub open spec fn reach_k(&self, a: int, b: int, k: nat) -> bool
        decreases k,
    {
        a == b || (k > 0 && exists|m: int|
            #[trigger] self.edge(a, m) && self.reach_k(m, b, (k - 1) as nat))
    }

    /// Box `b` can be reached from box `a` along edges.
    pub open spec fn reachable(&self, a: int, b: int) -> bool {
        exists|k: nat| self.reach_k(a, b, k)
    }

    /// Box `b` can be reached from some box with a non-zero root count.
    pub open spec fn root_reachable(&self, b: int) -> bool {
        exists|a: int|
            #[trigger] self.reachable(a, b) && self.live(a) && self.boxv(a).roots > 0
    }

    /// How many of the first `k` slots hold a live box.
    pub open spec fn live_count(bs: Seq<Option<GcBox<T>>>, k: int) -> nat
        decreases k,
    {
        if k <= 0 {
            0
        } else {
            Self::live_count(bs, k - 1) + (if bs[k - 1] is Some {
                1nat
            } else {
                0nat
            })
        }
    }

    /// Sum of the sizes of the live boxes among the first `k` slots.
    pub open spec fn live_bytes(bs: Seq<Option<GcBox<T>>>, k: int) -> nat
        decreases k,
    {
        if k <= 0 {
            0
        } else {
            Self::live_bytes(bs, k - 1) + (if bs[k - 1] is Some {
                vstd::layout::size_of::<GcBox<T>>()
            } else {
                0nat
            })
        }
    }

    /// How many of the first `k` slots hold a live, unmarked box.
    pub open spec fn unmarked_count(bs: Seq<Option<GcBox<T>>>, k: int) -> nat
        decreases k,
    {
        if k <= 0 {
            0
        } else {
            Self::unmarked_count(bs, k - 1) + (if bs[k - 1] is Some && !bs[k - 1]->Some_0.marked {
                1nat
            } else {
                0nat
            })
        }
    }

    /// The well-formedness of one live box: quiescent (not marked), its
    /// root count accurate, its payload unrooted, and every one of its
    /// edges an unrooted handle to a live box.
    pub open spec fn box_ok(&self, i: int) -> bool
        recommends
            self.live(i),
    {
        &&& !self.boxv(i).marked
        &&& self.boxv(i).roots == self.handles@.count(i)
        &&& !self.boxv(i).cell.rooted
        &&& forall|j: int|
            0 <= j < self.refs_of(i).len() ==> (!(#[trigger] self.refs_of(i)[j]).rooted
                && self.live(self.refs_of(i)[j].id as int))
    }

    /// The invariant of the collector at every quiescent point:
    /// every live box is well formed (root counts accurate, marks clear,
    /// edges live), rooted handles point at live boxes, the byte counter
    /// is the sum of the sizes of the live boxes, and every slot ever
    /// allocated is either live or accounted as freed.
    pub open spec fn wf(&self) -> bool {
        &&& forall|i: int| #[trigger] self.live(i) ==> self.box_ok(i)
        &&& forall|i: int| self.handles@.count(i) > 0 ==> self.live(i)
        &&& self.allocated_bytes == Self::live_bytes(self.boxes@, self.n())
        &&& self.freed@ + Self::live_count(self.boxes@, self.n()) == self.boxes@.len()
    }

    /// A handle the client may give back or move in: if it is rooted, it
    /// points at a live box and is one of the outstanding rooted handles.
    /// An unrooted handle asks nothing: giving one back is a no-op.
    pub open spec fn valid_handle(&self, h: Gc) -> bool {
        h.rooted ==> (self.live(h.id as int) && self.handles@.count(h.id as int) > 0)
    }

    /// Makes an empty collector: no boxes, no bytes.
    pub fn new() -> (s: GcState<T>)
        ensures
            s.wf(),
            s.boxes@.len() == 0,
            s.allocated_bytes == 0,
            s.handles@ =~= Multiset::<int>::empty(),
            s.freed@ == 0,
    {
        let s = GcState {
            allocated_bytes: 0,
            boxes: Vec::new(),
            handles: Ghost(Multiset::empty()),
            freed: Ghost(0nat),
        };
        s
    }

    /// How `clone_handle` (and `clone_ref`) changes the state: the target
    /// box gains one root, matched by one more outstanding rooted handle.
    pub open spec fn clone_post(pre: Self, post: Self, t: int) -> bool {
        &&& pre.live(t)
        &&& pre.boxv(t).roots < usize::MAX
        &&& post.boxes@ == pre.boxes@.update(
            t,
            Some(GcBox { roots: (pre.boxv(t).roots + 1) as usize, ..pre.boxv(t) }),
        )
        &&& post.handles@ == pre.handles@.insert(t)
        &&& post.allocated_bytes == pre.allocated_bytes
        &&& post.freed == pre.freed
    }

    /// How `drop_handle` changes the state when the handle was rooted: the
    /// target box gives one root back, matched by one outstanding rooted
    /// handle fewer.
    pub open spec fn drop_post(pre: Self, post: Self, t: int) -> bool {
        &&& pre.live(t)
        &&& pre.boxv(t).roots >= 1
        &&& post.boxes@ == pre.boxes@.update(
            t,
            Some(GcBox { roots: (pre.boxv(t).roots - 1) as usize, ..pre.boxv(t) }),
        )
        &&& post.handles@ == pre.handles@.remove(t)
        &&& post.allocated_bytes == pre.allocated_bytes
        &&& post.freed == pre.freed
    }

    /// Both counting specs are blind to everything but liveness: an update
    /// that keeps a slot live (or touches none) keeps them; sweeping one
    /// live slot lowers them by one box.
    proof fn lemma_live_stats_update(
        bs: Seq<Option<GcBox<T>>>,
        bs2: Seq<Option<GcBox<T>>>,
        u: int,
        k: int,
    )
        requires
            bs2.len() == bs.len(),
            0 <= u < bs.len(),
            k <= bs.len(),
            forall|i: int| 0 <= i < bs.len() && i != u ==> bs2[i] == bs[i],
        ensures
            k <= u ==> (Self::live_count(bs2, k) == Self::live_count(bs, k)
                && Self::live_bytes(bs2, k) == Self::live_bytes(bs, k)),
            (k > u && (bs[u] is Some <==> bs2[u] is Some)) ==> (Self::live_count(bs2, k)
                == Self::live_count(bs, k) && Self::live_bytes(bs2, k) == Self::live_bytes(bs, k)),
            (k > u && bs[u] is Some && bs2[u] is None) ==> (Self::live_count(bs2, k) + 1
                == Self::live_count(bs, k) && Self::live_bytes(bs2, k) + vstd::layout::size_of::<
                GcBox<T>,
            >() == Self::live_bytes(bs, k)),
        decreases k,
    {
        if k > 0 {
            Self::lemma_live_stats_update(bs, bs2, u, k - 1);
            assert(Self::live_count(bs2, k) == Self::live_count(bs2, k - 1) + (if bs2[k - 1] is Some {
                1nat
            } else {
                0nat
            }));
            assert(Self::live_count(bs, k) == Self::live_count(bs, k - 1) + (if bs[k - 1] is Some {
                1nat
            } else {
                0nat
            }));
            assert(Self::live_bytes(bs2, k) == Self::live_bytes(bs2, k - 1) + (if bs2[k - 1] is Some {
                vstd::layout::size_of::<GcBox<T>>()
            } else {
                0nat
            }));
            assert(Self::live_bytes(bs, k) == Self::live_bytes(bs, k - 1) + (if bs[k - 1] is Some {
                vstd::layout::size_of::<GcBox<T>>()
            } else {
                0nat
            }));
        }
    }

    /// The counting specs only look at which slots are live, never at the
    /// boxes inside them.
    proof fn lemma_live_stats_same_shape(
        bs: Seq<Option<GcBox<T>>>,
        bs2: Seq<Option<GcBox<T>>>,
        k: int,
    )
        requires
            k <= bs.len(),
            k <= bs2.len(),
            forall|i: int| 0 <= i < k ==> (bs[i] is Some <==> bs2[i] is Some),
        ensures
            Self::live_count(bs2, k) == Self::live_count(bs, k),
            Self::live_bytes(bs2, k) == Self::live_bytes(bs, k),
        decreases k,
    {
        if k > 0 {
            Self::lemma_live_stats_same_shape(bs, bs2, k - 1);
        }
    }

    /// The counting specs over the first `k` slots only look at those
    /// slots.
    proof fn lemma_live_stats_prefix(
        bs: Seq<Option<GcBox<T>>>,
        bs2: Seq<Option<GcBox<T>>>,
        k: int,
    )
        requires
            0 <= k <= bs.len(),
            k <= bs2.len(),
            forall|i: int| 0 <= i < k ==> bs2[i] == bs[i],
        ensures
            Self::live_count(bs2, k) == Self::live_count(bs, k),
            Self::live_bytes(bs2, k) == Self::live_bytes(bs, k),
        decreases k,
    {
        if k > 0 {
            Self::lemma_live_stats_prefix(bs, bs2, k - 1);
        }
    }

    /// After cloning or dropping a handle the state is well formed again.
    proof fn lemma_wf_after_root_change(pre: Self, post: Self, t: int)
        requires
            pre.wf(),
            Self::clone_post(pre, post, t) || Self::drop_post(pre, post, t),
        ensures
            post.wf(),
    {
        assert forall|i: int| post.live(i) == pre.live(i) by {}
        assert forall|i: int| #[trigger] post.live(i) implies post.box_ok(i) by {
            assert(pre.box_ok(i));
            assert(post.refs_of(i) == pre.refs_of(i));
        }
        Self::lemma_live_stats_update(pre.boxes@, post.boxes@, t, pre.n());
    }

    /// What `allocate` asks of its argument: a stack cell whose handles are
    /// all rooted, outstanding, and aimed at live boxes.
    pub open spec fn cell_allocatable(&self, cell: GcRefCell<T>) -> bool {
        &&& cell.rooted
        &&& forall|j: int|
            0 <= j < cell.refs@.len() ==> (#[trigger] cell.refs@[j]).rooted && self.live(
                cell.refs@[j].id as int,
            )
        &&& gc_ids(cell.refs@).subset_of(self.handles@)
    }

    /// How a successful `allocate` changes the state: the handles of the
    /// payload give their root contributions back (they moved into a
    /// managed location), a fresh box appears in a fresh slot with one
    /// root — the contribution of the returned handle — and the byte
    /// counter grows by the size of one box.
    pub open spec fn alloc_post(pre: Self, post: Self, value: T, refs: Seq<Gc>, h: Gc) -> bool {
        &&& h.id == pre.boxes@.len()
        &&& h.rooted
        &&& post.boxes@.len() == pre.boxes@.len() + 1
        &&& forall|i: int| 0 <= i < pre.n() ==> post.live(i) == pre.live(i)
        &&& forall|i: int|
            #[trigger] pre.live(i) ==> post.boxv(i).roots == pre.boxv(i).roots - gc_ids(
                refs,
            ).count(i) && post.boxv(i).marked == pre.boxv(i).marked && post.boxv(i).cell
                == pre.boxv(i).cell
        &&& post.live(h.id as int)
        &&& post.boxv(h.id as int).roots == 1
        &&& !post.boxv(h.id as int).marked
        &&& !post.boxv(h.id as int).cell.rooted
        &&& post.boxv(h.id as int).cell.value == value
        &&& post.refs_of(h.id as int) =~= refs.map_values(|g: Gc| Gc { id: g.id, rooted: false })
        &&& post.handles@ == pre.handles@.sub(gc_ids(refs)).insert(h.id as int)
        &&& post.allocated_bytes == pre.allocated_bytes + vstd::layout::size_of::<GcBox<T>>()
        &&& post.freed == pre.freed
    }

    /// Allocates the payload `cell` in this scope and returns a rooted
    /// handle to the new box.
    ///
    /// The payload is unrooted first: its handles are about to move into a
    /// managed location, where the containing box becomes their single
    /// root surrogate; without this they would keep the graph pinned
    /// forever. Fails, with no effect, only when the byte accounting has
    /// no room for one more box.
    pub fn allocate(&mut self, cell: GcRefCell<T>) -> (r: Result<Gc, GcAllocErr>)
        requires
            old(self).wf(),
            old(self).cell_allocatable(cell),
        ensures
            final(self).wf(),
            r is Ok <==> old(self).allocated_bytes + vstd::layout::size_of::<GcBox<T>>()
                <= usize::MAX,
            r matches Ok(h) ==> Self::alloc_post(*old(self), *final(self), cell.value, cell.refs@, h),
            r is Err ==> *final(self) == *old(self) && r == Err::<Gc, GcAllocErr>(
                GcAllocErr::Exhausted,
            ),
    {
        let sz = core::mem::size_of::<GcBox<T>>();
        if self.allocated_bytes > usize::MAX - sz {
            return Err(GcAllocErr::Exhausted);
        }
        let GcRefCell { rooted: _, value, refs } = cell;
        let ghost orig = refs@;
        let mut new_refs: Vec<Gc> = Vec::new();
        let n_refs = refs.len();
        proof {
            assert(orig.take(0) =~= Seq::<Gc>::empty());
            assert(orig.skip(0) =~= orig);
            assert(self.handles@.add(gc_ids(orig.take(0))) =~= self.handles@);
        }
        let mut j: usize = 0;
        while j < n_refs
            invariant
                old(self).wf(),
                old(self).cell_allocatable(cell),
                orig == cell.refs@,
                orig == refs@,
                n_refs == orig.len(),
                j <= n_refs,
                Self::unroot_loop_inv(*old(self), *self),
                old(self).handles@ == self.handles@.add(gc_ids(orig.take(j as int))),
                gc_ids(orig.skip(j as int)).subset_of(self.handles@),
                new_refs@.len() == j,
                forall|k: int|
                    0 <= k < j ==> new_refs@[k] == (Gc { id: orig[k].id, rooted: false }),
            decreases n_refs - j,
        {
            let ghost s_in = *self;
            let t = refs[j].id;
            proof {
                lemma_gc_ids_skip(orig, j as int);
                assert(gc_ids(orig.skip(j as int)).count(t as int) >= 1);
                assert(self.handles@.count(t as int) >= 1);
                assert(self.live(t as int));
                assert(old(self).live(t as int));
            }
            match &mut self.boxes[t] {
                Some(b) => {
                    b.dec_roots();
                },
                None => {
                    proof {
                        assert(false);
                    }
                },
            }
            proof {
                self.handles@ = self.handles@.remove(t as int);
                assert(Self::drop_post(s_in, *self, t as int));
                Self::lemma_unroot_step(*old(self), s_in, *self, t as int);
                assert(s_in.handles@ =~= self.handles@.insert(t as int));
                assert(orig.take(j + 1 as int) =~= orig.take(j as int).push(orig[j as int]));
                lemma_gc_ids_push(orig.take(j as int), orig[j as int]);
                assert(self.handles@.insert(t as int).add(gc_ids(orig.take(j as int)))
                    =~= self.handles@.add(gc_ids(orig.take(j + 1 as int))));
                assert forall|v: int|
                    gc_ids(orig.skip(j + 1 as int)).count(v) <= self.handles@.count(v) by {
                    assert(gc_ids(orig.skip(j as int)).count(v) <= s_in.handles@.count(v));
                    assert(gc_ids(orig.skip(j as int)) == gc_ids(orig.skip(j + 1 as int)).insert(
                        t as int,
                    ));
                }
            }
            new_refs.push(Gc { id: t, rooted: false });
            j += 1;
        }
        proof {
            assert(orig.take(n_refs as int) =~= orig);
        }
        let ghost s_exit = *self;
        let id = self.boxes.len();
        let new_box = GcBox::new(GcRefCell { rooted: false, value, refs: new_refs });
        self.boxes.push(Some(new_box));
        self.allocated_bytes = self.allocated_bytes + sz;
        proof {
            self.handles@ = self.handles@.insert(id as int);
            Self::lemma_alloc_finish(
                *old(self),
                s_exit,
                *self,
                cell,
                orig,
                Gc { id, rooted: true },
            );
        }
        Ok(Gc::new(id))
    }

    /// What the unroot loop of `allocate` preserves about the state: the
    /// shape is untouched, root counts stay accurate, and rooted handles
    /// still point at live boxes.
    pub open spec fn unroot_loop_inv(s0: Self, s: Self) -> bool {
        &&& s.boxes@.len() == s0.boxes@.len()
        &&& forall|i: int| s.live(i) == s0.live(i)
        &&& forall|i: int|
            #[trigger] s0.live(i) ==> s.boxv(i).roots == s.handles@.count(i) && s.boxv(i).marked
                == s0.boxv(i).marked && s.boxv(i).cell == s0.boxv(i).cell
        &&& forall|i: int| s.handles@.count(i) > 0 ==> s.live(i)
        &&& s.allocated_bytes == s0.allocated_bytes
        &&& s.freed == s0.freed
    }

    /// One step of the unroot loop keeps its invariant.
    proof fn lemma_unroot_step(s0: Self, s_in: Self, s_out: Self, t: int)
        requires
            s0.wf(),
            Self::unroot_loop_inv(s0, s_in),
            Self::drop_post(s_in, s_out, t),
        ensures
            Self::unroot_loop_inv(s0, s_out),
    {
        assert forall|i: int| s_out.live(i) == s0.live(i) by {
            assert(s_in.live(i) == s0.live(i));
        }
        assert forall|i: int| #[trigger] s0.live(i) implies s_out.boxv(i).roots
            == s_out.handles@.count(i) && s_out.boxv(i).marked == s0.boxv(i).marked
            && s_out.boxv(i).cell == s0.boxv(i).cell by {
            assert(s_in.boxv(i).roots == s_in.handles@.count(i));
        }
        assert forall|i: int| s_out.handles@.count(i) > 0 implies s_out.live(i) by {
            assert(s_in.handles@.count(i) > 0);
            assert(s_in.live(i));
        }
    }

    /// Once the payload is unrooted and the fresh box pushed, the state is
    /// well formed again and `alloc_post` holds.
    proof fn lemma_alloc_finish(
        s0: Self,
        s_exit: Self,
        s2: Self,
        cell: GcRefCell<T>,
        orig: Seq<Gc>,
        h: Gc,
    )
        requires
            h.id == s0.boxes@.len(),
            h.rooted,
            s0.wf(),
            s0.cell_allocatable(cell),
            orig == cell.refs@,
            Self::unroot_loop_inv(s0, s_exit),
            s0.handles@ == s_exit.handles@.add(gc_ids(orig)),
            s2.boxes@.len() == s0.boxes@.len() + 1,
            forall|i: int| 0 <= i < s0.n() ==> s2.boxes@[i] == s_exit.boxes@[i],
            s2.boxes@[s0.n()] is Some,
            s2.boxv(s0.n()).roots == 1,
            !s2.boxv(s0.n()).marked,
            !s2.boxv(s0.n()).cell.rooted,
            s2.boxv(s0.n()).cell.value == cell.value,
            s2.refs_of(s0.n()).len() == orig.len(),
            forall|k: int|
                0 <= k < orig.len() ==> s2.refs_of(s0.n())[k] == (Gc {
                    id: orig[k].id,
                    rooted: false,
                }),
            s2.handles@ == s_exit.handles@.insert(s0.n()),
            s2.allocated_bytes == s0.allocated_bytes + vstd::layout::size_of::<GcBox<T>>(),
            s2.freed == s0.freed,
        ensures
            s2.wf(),
            Self::alloc_post(s0, s2, cell.value, cell.refs@, h),
    {
        let n = s0.n();
        assert(s_exit.handles@.count(n) == 0) by {
            if s_exit.handles@.count(n) > 0 {
                assert(s_exit.live(n));
            }
        }
        assert forall|i: int| 0 <= i < n implies s2.live(i) == s0.live(i) by {
            assert(s_exit.live(i) == s0.live(i));
        }
        assert forall|v: int|
            s2.handles@.count(v) == s0.handles@.sub(gc_ids(orig)).insert(n).count(v) by {
            assert(s0.handles@.count(v) == s_exit.handles@.count(v) + gc_ids(orig).count(v));
        }
        assert(s2.handles@ =~= s0.handles@.sub(gc_ids(orig)).insert(n));
        assert forall|i: int| #[trigger] s2.live(i) implies s2.box_ok(i) by {
            if i < n {
                assert(s0.live(i));
                assert(s0.box_ok(i));
                assert(s2.boxv(i) == s_exit.boxv(i));
                assert(s2.handles@.count(i) == s_exit.handles@.count(i));
                assert(s2.refs_of(i) == s0.refs_of(i));
                assert forall|k: int| 0 <= k < s2.refs_of(i).len() implies !(
                #[trigger] s2.refs_of(i)[k]).rooted && s2.live(s2.refs_of(i)[k].id as int) by {
                    assert(!s0.refs_of(i)[k].rooted && s0.live(s0.refs_of(i)[k].id as int));
                }
            } else {
                assert(i == n);
                assert(s2.handles@.count(n) == 1);
                assert forall|k: int| 0 <= k < s2.refs_of(i).len() implies !(
                #[trigger] s2.refs_of(i)[k]).rooted && s2.live(s2.refs_of(i)[k].id as int) by {
                    assert(s2.refs_of(i)[k] == (Gc { id: orig[k].id, rooted: false }));
                    assert(cell.refs@[k].rooted && s0.live(cell.refs@[k].id as int));
                }
            }
        }
        assert forall|i: int| s2.handles@.count(i) > 0 implies s2.live(i) by {
            if i != n {
                assert(s_exit.handles@.count(i) > 0);
                assert(s_exit.live(i));
                assert(s0.live(i));
            }
        }
        assert(Self::live_bytes(s2.boxes@, n) == Self::live_bytes(s_exit.boxes@, n)
            && Self::live_count(s2.boxes@, n) == Self::live_count(s_exit.boxes@, n)) by {
            Self::lemma_live_stats_prefix(s_exit.boxes@, s2.boxes@, n);
        }
        assert(Self::live_bytes(s_exit.boxes@, n) == Self::live_bytes(s0.boxes@, n)
            && Self::live_count(s_exit.boxes@, n) == Self::live_count(s0.boxes@, n)) by {
            assert forall|i: int| 0 <= i < n implies (s_exit.boxes@[i] is Some <==> s0.boxes@[i]
                is Some) by {
                assert(s_exit.live(i) == s0.live(i));
            }
            Self::lemma_live_stats_same_shape(s0.boxes@, s_exit.boxes@, n);
        }
        assert(Self::live_bytes(s2.boxes@, n + 1) == Self::live_bytes(s2.boxes@, n)
            + vstd::layout::size_of::<GcBox<T>>());
        assert(Self::live_count(s2.boxes@, n + 1) == Self::live_count(s2.boxes@, n) + 1);
        assert forall|i: int| #[trigger] s0.live(i) implies s2.boxv(i).roots == s0.boxv(i).roots
            - gc_ids(orig).count(i) && s2.boxv(i).marked == s0.boxv(i).marked && s2.boxv(i).cell
            == s0.boxv(i).cell by {
            assert(s_exit.boxv(i).roots == s_exit.handles@.count(i));
            assert(s0.boxv(i).roots == s0.handles@.count(i));
            assert(s0.handles@.count(i) == s_exit.handles@.count(i) + gc_ids(orig).count(i));
            assert(s2.boxv(i) == s_exit.boxv(i));
        }
        assert(s2.refs_of(n) =~= cell.refs@.map_values(|g: Gc| Gc { id: g.id, rooted: false }));
    }

    /// Reaching `a` from `r` and following one more edge reaches `m`.
    pub proof fn lemma_reach_extend(&self, r: int, a: int, m: int, k: nat)
        requires
            self.reach_k(r, a, k),
            self.edge(a, m),
        ensures
            self.reach_k(r, m, (k + 1) as nat),
        decreases k,
    {
        if r == a {
            assert(self.reach_k(m, m, k));
        } else {
            let m2 = choose|m2: int|
                #[trigger] self.edge(r, m2) && self.reach_k(m2, a, (k - 1) as nat);
            self.lemma_reach_extend(m2, a, m, (k - 1) as nat);
        }
    }

    /// Edges end at live boxes, so whatever is reachable from a live box
    /// is live.
    pub proof fn lemma_reach_live(&self, a: int, b: int, k: nat)
        requires
            self.wf(),
            self.live(a),
            self.reach_k(a, b, k),
        ensures
            self.live(b),
        decreases k,
    {
        if a != b {
            let m = choose|m: int|
                #[trigger] self.edge(a, m) && self.reach_k(m, b, (k - 1) as nat);
            assert(self.box_ok(a));
            let j = choose|j: int| 0 <= j < self.refs_of(a).len() && self.refs_of(a)[j].id == m;
            assert(self.live(self.refs_of(a)[j].id as int));
            self.lemma_reach_live(m, b, (k - 1) as nat);
        }
    }

    /// Root reachability is closed under following an edge.
    pub proof fn lemma_root_reachable_edge(&self, a: int, m: int)
        requires
            self.root_reachable(a),
            self.edge(a, m),
        ensures
            self.root_reachable(m),
    {
        let r = choose|r: int|
            #[trigger] self.reachable(r, a) && self.live(r) && self.boxv(r).roots > 0;
        let k = choose|k: nat| self.reach_k(r, a, k);
        self.lemma_reach_extend(r, a, m, k);
        assert(self.reachable(r, m));
    }

    /// What the mark phase alone may change about the state: mark bits.
    /// Whatever it marks is root-reachable in the starting state.
    pub open spec fn mark_phase_inv(s0: Self, s: Self) -> bool {
        &&& s.boxes@.len() == s0.boxes@.len()
        &&& forall|i: int| s.live(i) == s0.live(i)
        &&& forall|i: int|
            #[trigger] s0.live(i) ==> s.boxv(i).roots == s0.boxv(i).roots && s.boxv(i).cell
                == s0.boxv(i).cell
        &&& forall|i: int|
            s0.live(i) && (#[trigger] s.boxv(i)).marked ==> s0.root_reachable(i)
        &&& s.handles == s0.handles
        &&& s.allocated_bytes == s0.allocated_bytes
        &&& s.freed == s0.freed
    }

    /// Once the set of marked boxes is closed under edges, everything
    /// reachable from a marked box is marked.
    proof fn lemma_reach_marked(s0: Self, s1: Self, r: int, b: int, k: nat)
        requires
            s0.wf(),
            Self::mark_phase_inv(s0, s1),
            forall|a: int, m: int|
                s0.live(a) && s1.boxv(a).marked && #[trigger] s0.edge(a, m) ==> s1.boxv(m).marked,
            s0.live(r),
            s1.boxv(r).marked,
            s0.reach_k(r, b, k),
        ensures
            s1.boxv(b).marked,
        decreases k,
    {
        if r == b {
        } else {
            let m = choose|m: int|
                #[trigger] s0.edge(r, m) && s0.reach_k(m, b, (k - 1) as nat);
            assert(s0.box_ok(r));
            let j = choose|j: int| 0 <= j < s0.refs_of(r).len() && s0.refs_of(r)[j].id == m;
            assert(s0.live(s0.refs_of(r)[j].id as int));
            Self::lemma_reach_marked(s0, s1, m, b, (k - 1) as nat);
        }
    }

    /// One slot switching from unmarked to marked lowers the count of
    /// unmarked boxes by one.
    proof fn lemma_unmarked_update(
        bs: Seq<Option<GcBox<T>>>,
        bs2: Seq<Option<GcBox<T>>>,
        u: int,
        k: int,
    )
        requires
            bs2.len() == bs.len(),
            0 <= u < bs.len(),
            k <= bs.len(),
            forall|i: int| 0 <= i < bs.len() && i != u ==> bs2[i] == bs[i],
            bs[u] is Some,
            bs2[u] is Some,
            !bs[u]->Some_0.marked,
            bs2[u]->Some_0.marked,
        ensures
            k <= u ==> Self::unmarked_count(bs2, k) == Self::unmarked_count(bs, k),
            k > u ==> Self::unmarked_count(bs2, k) + 1 == Self::unmarked_count(bs, k),
        decreases k,
    {
        if k > 0 {
            Self::lemma_unmarked_update(bs, bs2, u, k - 1);
        }
    }

    /// How `collect_garbage` changes the state: exactly the boxes that
    /// were reachable from a root survive, untouched, and the accounting
    /// follows the boxes that were swept.
    pub open spec fn collect_post(pre: Self, post: Self) -> bool {
        &&& post.boxes@.len() == pre.boxes@.len()
        &&& forall|i: int| #[trigger] post.live(i) <==> (pre.live(i) && pre.root_reachable(i))
        &&& forall|i: int| #[trigger] post.live(i) ==> post.boxes@[i] == pre.boxes@[i]
        &&& post.handles@ == pre.handles@
        &&& post.freed@ + Self::live_count(post.boxes@, post.n()) == pre.freed@
            + Self::live_count(pre.boxes@, pre.n())
    }

    /// Runs a full mark-and-sweep collection.
    ///
    /// The mark pass starts from every box with a non-zero root count and
    /// propagates along the edges of the payloads, visiting every box at
    /// most once. The sweep pass frees every unmarked box, clears the
    /// mark bit of the survivors, and keeps the byte accounting in step.
    pub fn collect_garbage(&mut self)
        requires
            old(self).wf(),
        ensures
            final(self).wf(),
            Self::collect_post(*old(self), *final(self)),
    {
        let ghost s0 = *self;
        let n = self.boxes.len();
        // Mark pass, first half: seed the worklist with every rooted box.
        let mut stack: Vec<usize> = Vec::new();
        let mut i: usize = 0;
        while i < n
            invariant
                *self == s0,
                s0.wf(),
                n == s0.boxes@.len(),
                i <= n,
                forall|k: int|
                    0 <= k < stack@.len() ==> ((#[trigger] stack@[k]) < n && s0.live(
                        stack@[k] as int,
                    ) && s0.root_reachable(stack@[k] as int)),
                forall|p: int|
                    0 <= p < i && s0.live(p) && s0.boxv(p).roots > 0 ==> stack@.contains(
                        p as usize,
                    ),
            decreases n - i,
        {
            let is_root = match &self.boxes[i] {
                Some(b) => b.roots > 0,
                None => false,
            };
            let ghost stack_pre = stack@;
            if is_root {
                stack.push(i);
                proof {
                    assert(s0.reach_k(i as int, i as int, 0));
                    assert(s0.reachable(i as int, i as int));
                    assert(stack@[stack@.len() - 1] == i);
                }
            }
            proof {
                assert forall|p: int|
                    0 <= p < i + 1 && s0.live(p) && s0.boxv(p).roots > 0 implies stack@.contains(
                    p as usize,
                ) by {
                    if p < i {
                        let q = choose|q: int| 0 <= q < stack_pre.len() && stack_pre[q] == p;
                        assert(stack@[q] == p as usize);
                    }
                }
            }
            i += 1;
        }
        // Mark pass, second half: propagate along edges until the
        // worklist is empty.
        while stack.len() > 0
            invariant
                s0.wf(),
                n == s0.boxes@.len(),
                Self::mark_phase_inv(s0, *self),
                forall|k: int|
                    0 <= k < stack@.len() ==> ((#[trigger] stack@[k]) < n && s0.live(
                        stack@[k] as int,
                    ) && s0.root_reachable(stack@[k] as int)),
                forall|p: int|
                    s0.live(p) && s0.boxv(p).roots > 0 ==> ((#[trigger] self.boxv(p)).marked
                        || stack@.contains(p as usize)),
                forall|a: int, m: int|
                    s0.live(a) && self.boxv(a).marked && #[trigger] s0.edge(a, m) ==> (self.boxv(
                        m,
                    ).marked || stack@.contains(m as usize)),
            decreases Self::unmarked_count(self.boxes@, n as int), stack@.len(),
        {
            let ghost s_in = *self;
            let ghost stack0 = stack@;
            let u = stack.pop().unwrap();
            proof {
                assert(stack0[stack0.len() - 1] == u);
                assert(s0.live(u as int));
            }
            let edges = match &mut self.boxes[u] {
                Some(b) => b.mark_box(),
                None => {
                    proof {
                        assert(false);
                    }
                    Vec::new()
                },
            };
            proof {
                if s_in.boxv(u as int).marked {
                    assert(self.boxes@[u as int] == s_in.boxes@[u as int]);
                    assert(self.boxes@ =~= s_in.boxes@);
                } else {
                    Self::lemma_unmarked_update(s_in.boxes@, self.boxes@, u as int, n as int);
                }
                assert forall|i: int| self.live(i) == s0.live(i) by {
                    assert(s_in.live(i) == s0.live(i));
                }
                assert forall|i: int|
                    s0.live(i) && (#[trigger] self.boxv(i)).marked implies s0.root_reachable(
                    i,
                ) by {
                    if i != u as int {
                        assert(s_in.boxv(i).marked);
                    }
                }
            }
            let ghost stack_mid = stack@;
            let mut j: usize = 0;
            while j < edges.len()
                invariant
                    s0.wf(),
                    n == s0.boxes@.len(),
                    j <= edges.len(),
                    s0.live(u as int),
                    s0.root_reachable(u as int),
                    edges@.len() <= s0.refs_of(u as int).len(),
                    forall|q: int|
                        0 <= q < edges@.len() ==> (#[trigger] edges@[q]) == s0.refs_of(
                            u as int,
                        )[q].id,
                    forall|k: int|
                        0 <= k < stack@.len() ==> ((#[trigger] stack@[k]) < n && s0.live(
                            stack@[k] as int,
                        ) && s0.root_reachable(stack@[k] as int)),
                    stack@.len() == stack_mid.len() + j,
                    forall|x: usize| stack_mid.contains(x) ==> stack@.contains(x),
                    forall|q: int| 0 <= q < j ==> stack@.contains(#[trigger] edges@[q]),
                decreases edges.len() - j,
            {
                let e = edges[j];
                let ghost stack_pre = stack@;
                proof {
                    assert(s0.refs_of(u as int)[j as int].id == e);
                    assert(s0.edge(u as int, e as int));
                    assert(s0.box_ok(u as int));
                    assert(s0.live(s0.refs_of(u as int)[j as int].id as int));
                    s0.lemma_root_reachable_edge(u as int, e as int);
                }
                stack.push(e);
                proof {
                    assert(stack@[stack@.len() - 1] == e);
                    assert forall|x: usize| stack_mid.contains(x) implies stack@.contains(x) by {
                        let q = choose|q: int| 0 <= q < stack_pre.len() && stack_pre[q] == x;
                        assert(stack@[q] == x);
                    }
                    assert forall|q: int| 0 <= q < j + 1 implies stack@.contains(
                        #[trigger] edges@[q],
                    ) by {
                        if q < j {
                            let w = choose|w: int|
                                0 <= w < stack_pre.len() && stack_pre[w] == edges@[q];
                            assert(stack@[w] == edges@[q]);
                        }
                    }
                }
                j += 1;
            }
            proof {
                assert forall|p: int|
                    s0.live(p) && s0.boxv(p).roots > 0 implies ((#[trigger] self.boxv(p)).marked
                    || stack@.contains(p as usize)) by {
                    if !self.boxv(p).marked {
                        assert(!s_in.boxv(p).marked);
                        assert(stack0.contains(p as usize));
                        let q = choose|q: int| 0 <= q < stack0.len() && stack0[q] == p as usize;
                        if q < stack0.len() - 1 {
                            assert(stack_mid[q] == p as usize);
                            assert(stack_mid.contains(p as usize));
                        } else {
                            assert(p == u as int);
                            assert(self.boxv(p).marked);
                        }
                    }
                }
                assert forall|a: int, m: int|
                    s0.live(a) && self.boxv(a).marked && #[trigger] s0.edge(a, m) implies (
                self.boxv(m).marked || stack@.contains(m as usize)) by {
                    if a == u as int {
                        if !s_in.boxv(u as int).marked {
                            // every edge of u was pushed
                            let jj = choose|jj: int|
                                0 <= jj < s0.refs_of(a).len() && s0.refs_of(a)[jj].id == m;
                            assert(edges@[jj] == m as usize);
                            assert(stack@.contains(edges@[jj]));
                        } else {
                            // u was marked on entry: the old closure applies
                            assert(s_in.boxv(a).marked);
                            if !self.boxv(m).marked {
                                assert(stack0.contains(m as usize));
                                let q = choose|q: int|
                                    0 <= q < stack0.len() && stack0[q] == m as usize;
                                if q < stack0.len() - 1 {
                                    assert(stack_mid[q] == m as usize);
                                    assert(stack_mid.contains(m as usize));
                                } else {
                                    assert(m == u as int);
                                }
                            }
                        }
                    } else {
                        assert(s_in.boxv(a).marked);
                        if !self.boxv(m).marked && !s_in.boxv(m).marked {
                            assert(stack0.contains(m as usize));
                            let q = choose|q: int| 0 <= q < stack0.len() && stack0[q] == m as usize;
                            if q < stack0.len() - 1 {
                                assert(stack_mid[q] == m as usize);
                                assert(stack_mid.contains(m as usize));
                            } else {
                                assert(m == u as int);
                                assert(self.boxv(m).marked);
                            }
                        } else if !self.boxv(m).marked {
                            assert(m == u as int && s_in.boxv(m).marked);
                            assert(self.boxv(m).marked);
                        }
                    }
                }
                if s_in.boxv(u as int).marked {
                    assert(edges@.len() == 0);
                    assert(Self::unmarked_count(self.boxes@, n as int) == Self::unmarked_count(
                        s_in.boxes@,
                        n as int,
                    ));
                    assert(stack@.len() < stack0.len());
                } else {
                    assert(Self::unmarked_count(self.boxes@, n as int) < Self::unmarked_count(
                        s_in.boxes@,
                        n as int,
                    ));
                }
            }
        }
        // The worklist is drained: the marked boxes are exactly the
        // root-reachable ones.
        let ghost s1 = *self;
        proof {
            assert forall|b: int| s0.live(b) implies (s1.boxv(b).marked <==> s0.root_reachable(
                b,
            )) by {
                if s1.boxv(b).marked {
                    assert(s0.root_reachable(b));
                }
                if s0.root_reachable(b) {
                    let r = choose|r: int|
                        #[trigger] s0.reachable(r, b) && s0.live(r) && s0.boxv(r).roots > 0;
                    assert(s1.boxv(r).marked);
                    let k = choose|k: nat| s0.reach_k(r, b, k);
                    assert forall|a: int, m: int|
                        s0.live(a) && s1.boxv(a).marked && #[trigger] s0.edge(a, m) implies s1.boxv(
                        m,
                    ).marked by {}
                    Self::lemma_reach_marked(s0, s1, r, b, k);
                }
            }
            assert forall|i: int| 0 <= i < n implies (s1.boxes@[i] is Some <==> s0.boxes@[i]
                is Some) by {
                assert(s1.live(i) == s0.live(i));
            }
            Self::lemma_live_stats_same_shape(s0.boxes@, s1.boxes@, n as int);
        }
        // Sweep pass: free the unmarked boxes, clear the mark bit of the
        // survivors.
        let sz = core::mem::size_of::<GcBox<T>>();
        let mut i: usize = 0;
        while i < n
            invariant
                s0.wf(),
                n == s0.boxes@.len(),
                n == s1.boxes@.len(),
                i <= n,
                self.boxes@.len() == n,
                sz == vstd::layout::size_of::<GcBox<T>>(),
                Self::mark_phase_inv(s0, s1),
                forall|b: int| s0.live(b) ==> (s1.boxv(b).marked <==> s0.root_reachable(b)),
                Self::live_bytes(s1.boxes@, n as int) == Self::live_bytes(s0.boxes@, n as int),
                Self::live_count(s1.boxes@, n as int) == Self::live_count(s0.boxes@, n as int),
                forall|p: int| i <= p < n ==> self.boxes@[p] == s1.boxes@[p],
                forall|p: int|
                    0 <= p < i ==> ((#[trigger] self.live(p)) <==> (s0.live(p)
                        && s0.root_reachable(p))),
                forall|p: int|
                    0 <= p < i && self.live(p) ==> self.boxes@[p] == s0.boxes@[p],
                self.handles@ == s0.handles@,
                self.allocated_bytes + Self::live_bytes(s1.boxes@, i as int)
                    == s1.allocated_bytes + Self::live_bytes(self.boxes@, i as int),
                self.freed@ + Self::live_count(self.boxes@, i as int) == s1.freed@
                    + Self::live_count(s1.boxes@, i as int),
            decreases n - i,
        {
            let ghost s_in = *self;
            let dead = match &self.boxes[i] {
                Some(b) => !b.marked,
                None => false,
            };
            if dead {
                proof {
                    assert(s1.live(i as int) && !s1.boxv(i as int).marked);
                    assert(s0.live(i as int) && !s0.root_reachable(i as int));
                    // the byte counter covers this box
                    Self::lemma_live_stats_mono(s1.boxes@, i + 1 as int, n as int);
                    assert(Self::live_bytes(s1.boxes@, i + 1 as int) == Self::live_bytes(
                        s1.boxes@,
                        i as int,
                    ) + vstd::layout::size_of::<GcBox<T>>());
                    assert(s1.allocated_bytes == Self::live_bytes(s1.boxes@, n as int));
                    assert(self.allocated_bytes >= vstd::layout::size_of::<GcBox<T>>());
                }
                self.boxes[i] = None;
                self.allocated_bytes = self.allocated_bytes - sz;
                proof {
                    self.freed@ = self.freed@ + 1;
                    assert(Self::live_bytes(self.boxes@, i + 1 as int) == Self::live_bytes(
                        self.boxes@,
                        i as int,
                    ));
                    Self::lemma_live_stats_prefix(s_in.boxes@, self.boxes@, i as int);
                }
            } else {
                match &mut self.boxes[i] {
                    Some(b) => {
                        b.clear_mark();
                    },
                    None => {},
                }
                proof {
                    Self::lemma_live_stats_prefix(s_in.boxes@, self.boxes@, i as int);
                    if s1.live(i as int) {
                        assert(self.boxes@[i as int] is Some);
                        assert(s0.root_reachable(i as int));
                        // the survivor is exactly its quiescent self again
                        assert(self.boxv(i as int).roots == s0.boxv(i as int).roots);
                        assert(self.boxv(i as int).cell == s0.boxv(i as int).cell);
                        assert(!self.boxv(i as int).marked && !s0.boxv(i as int).marked);
                        assert(self.boxv(i as int) == s0.boxv(i as int));
                        assert(self.boxes@[i as int] == s0.boxes@[i as int]);
                    }
                    assert(Self::live_bytes(self.boxes@, i + 1 as int) == Self::live_bytes(
                        self.boxes@,
                        i as int,
                    ) + if self.boxes@[i as int] is Some {
                        vstd::layout::size_of::<GcBox<T>>()
                    } else {
                        0nat
                    });
                }
            }
            proof {
                assert forall|p: int| 0 <= p < i + 1 implies ((#[trigger] self.live(p)) <==> (
                s0.live(p) && s0.root_reachable(p))) by {
                    if p < i {
                        assert(s_in.live(p) <==> (s0.live(p) && s0.root_reachable(p)));
                        assert(self.boxes@[p] == s_in.boxes@[p]);
                    }
                }
                assert forall|p: int| 0 <= p < i + 1 && self.live(p) implies self.boxes@[p]
                    == s0.boxes@[p] by {
                    if p < i {
                        assert(s_in.live(p));
                        assert(s_in.boxes@[p] == s0.boxes@[p]);
                        assert(self.boxes@[p] == s_in.boxes@[p]);
                    }
                }
            }
            i += 1;
        }
        proof {
            let s2 = *self;
            assert(s1.allocated_bytes == Self::live_bytes(s1.boxes@, n as int));
            assert(s2.allocated_bytes == Self::live_bytes(s2.boxes@, n as int));
            assert(s2.freed@ + Self::live_count(s2.boxes@, n as int) == s2.boxes@.len());
            assert forall|i: int| #[trigger] s2.live(i) implies s2.box_ok(i) by {
                assert(s2.boxes@[i] == s0.boxes@[i]);
                assert(s0.live(i));
                assert(s0.box_ok(i));
                assert(s2.refs_of(i) == s0.refs_of(i));
                assert forall|j: int| 0 <= j < s2.refs_of(i).len() implies !(
                #[trigger] s2.refs_of(i)[j]).rooted && s2.live(s2.refs_of(i)[j].id as int) by {
                    let t = s0.refs_of(i)[j].id as int;
                    assert(!s0.refs_of(i)[j].rooted && s0.live(t));
                    assert(s0.edge(i, t));
                    s0.lemma_root_reachable_edge(i, t);
                }
            }
            assert forall|i: int| s2.handles@.count(i) > 0 implies s2.live(i) by {
                assert(s0.handles@.count(i) > 0);
                assert(s0.live(i));
                assert(s0.box_ok(i));
                assert(s0.boxv(i).roots == s0.handles@.count(i));
                assert(s0.reach_k(i, i, 0));
                assert(s0.reachable(i, i));
                assert(s0.root_reachable(i));
            }
        }
    }

    /// The counting specs grow with the prefix they cover.
    proof fn lemma_live_stats_mono(bs: Seq<Option<GcBox<T>>>, a: int, b: int)
        requires
            0 <= a <= b,
        ensures
            Self::live_bytes(bs, a) <= Self::live_bytes(bs, b),
            Self::live_count(bs, a) <= Self::live_count(bs, b),
        decreases b,
    {
        if b > a {
            Self::lemma_live_stats_mono(bs, a, b - 1);
        }
    }

    /// Creates a new rooted handle for the box `h` points to, incrementing
    /// its root count accordingly.
    pub fn clone_handle(&mut self, h: &Gc) -> (h2: Gc)
        requires
            old(self).wf(),
            old(self).live(h.id as int),
            old(self).boxv(h.id as int).roots < usize::MAX,
        ensures
            final(self).wf(),
            h2.id == h.id,
            h2.rooted,
            final(self).valid_handle(h2),
            Self::clone_post(*old(self), *final(self), h.id as int),
    {
        match &mut self.boxes[h.id] {
            Some(b) => {
                b.inc_roots();
            },
            None => {
                proof {
                    assert(false);
                }
            },
        }
        proof {
            self.handles@ = self.handles@.insert(h.id as int);
            Self::lemma_wf_after_root_change(*old(self), *self, h.id as int);
        }
        Gc::new(h.id)
    }

    /// Gives a handle back. A rooted handle returns its root contribution;
    /// an unrooted one contributes nothing and nothing happens.
    pub fn drop_handle(&mut self, h: Gc)
        requires
            old(self).wf(),
            old(self).valid_handle(h),
        ensures
            final(self).wf(),
            h.rooted ==> Self::drop_post(*old(self), *final(self), h.id as int),
            !h.rooted ==> *final(self) == *old(self),
    {
        if h.rooted {
            match &mut self.boxes[h.id] {
                Some(b) => {
                    b.dec_roots();
                },
                None => {
                    proof {
                        assert(false);
                    }
                },
            }
            proof {
                self.handles@ = self.handles@.remove(h.id as int);
                Self::lemma_wf_after_root_change(*old(self), *self, h.id as int);
            }
        }
    }

    /// How the two edge-mutating operations (`set_ref`, `push_ref`)
    /// change the state around the cell of box `t`: the moved-in handle's
    /// target `rt` gives one root back, everything else stays.
    pub open spec fn edge_change_post(pre: Self, post: Self, t: int, rt: int) -> bool {
        &&& post.boxes@.len() == pre.boxes@.len()
        &&& forall|i: int| post.live(i) == pre.live(i)
        &&& forall|i: int|
            #[trigger] pre.live(i) ==> post.boxv(i).marked == pre.boxv(i).marked && post.boxv(
                i,
            ).roots == pre.boxv(i).roots - (if i == rt {
                1int
            } else {
                0int
            })
        &&& forall|i: int| pre.live(i) && i != t ==> post.boxv(i).cell == pre.boxv(i).cell
        &&& post.boxv(t).cell.value == pre.boxv(t).cell.value
        &&& post.boxv(t).cell.rooted == pre.boxv(t).cell.rooted
        &&& post.handles@ == pre.handles@.remove(rt)
        &&& post.allocated_bytes == pre.allocated_bytes
        &&& post.freed == pre.freed
    }

    /// After an edge change whose new edge aims at a live box, the state
    /// is well formed again.
    proof fn lemma_wf_after_edge_change(pre: Self, post: Self, t: int, rt: int)
        requires
            pre.wf(),
            pre.live(t),
            pre.live(rt),
            pre.handles@.count(rt) >= 1,
            Self::edge_change_post(pre, post, t, rt),
            post.refs_of(t).len() >= pre.refs_of(t).len(),
            forall|k: int|
                0 <= k < post.refs_of(t).len() ==> ((#[trigger] post.refs_of(t)[k]) == (Gc {
                    id: rt as usize,
                    rooted: false,
                }) || (k < pre.refs_of(t).len() && post.refs_of(t)[k] == pre.refs_of(t)[k])),
            rt == (rt as usize) as int,
        ensures
            post.wf(),
    {
        assert forall|i: int| #[trigger] post.live(i) implies post.box_ok(i) by {
            assert(pre.live(i));
            assert(pre.box_ok(i));
            if i != t {
                assert(post.refs_of(i) == pre.refs_of(i));
            }
            assert forall|j: int| 0 <= j < post.refs_of(i).len() implies !(
            #[trigger] post.refs_of(i)[j]).rooted && post.live(post.refs_of(i)[j].id as int) by {
                if i != t {
                    assert(!pre.refs_of(i)[j].rooted && pre.live(pre.refs_of(i)[j].id as int));
                } else if post.refs_of(t)[j] == (Gc { id: rt as usize, rooted: false }) {
                    assert(post.live(rt));
                } else {
                    assert(post.refs_of(i)[j] == pre.refs_of(i)[j]);
                    assert(!pre.refs_of(i)[j].rooted && pre.live(pre.refs_of(i)[j].id as int));
                }
            }
        }
        assert forall|i: int| post.handles@.count(i) > 0 implies post.live(i) by {
            assert(pre.handles@.count(i) > 0);
        }
        assert forall|i: int| 0 <= i < pre.n() implies (pre.boxes@[i] is Some <==> post.boxes@[i]
            is Some) by {
            assert(post.live(i) == pre.live(i));
        }
        Self::lemma_live_stats_same_shape(pre.boxes@, post.boxes@, pre.n());
    }

    /// Replaces the edge at position `j` of the box `h` points to by one
    /// aimed where `r` points, consuming `r`.
    ///
    /// The handle moves into a managed location, so it is unrooted on the
    /// way in: its target stays pinned through the containing box's
    /// reachability rather than through the root count. The replaced
    /// edge, an unrooted handle, is simply discarded.
    pub fn set_ref(&mut self, h: &Gc, j: usize, r: Gc)
        requires
            old(self).wf(),
            old(self).live(h.id as int),
            j < old(self).refs_of(h.id as int).len(),
            r.rooted,
            old(self).valid_handle(r),
        ensures
            final(self).wf(),
            Self::edge_change_post(*old(self), *final(self), h.id as int, r.id as int),
            final(self).refs_of(h.id as int) == old(self).refs_of(h.id as int).update(
                j as int,
                Gc { id: r.id, rooted: false },
            ),
    {
        proof {
            assert(old(self).box_ok(h.id as int));
            assert(old(self).box_ok(r.id as int));
        }
        match &mut self.boxes[h.id] {
            Some(b) => {
                b.cell.set_ref(j, Gc { id: r.id, rooted: false });
            },
            None => {
                proof {
                    assert(false);
                }
            },
        }
        let ghost s_mid = *self;
        match &mut self.boxes[r.id] {
            Some(b) => {
                b.dec_roots();
            },
            None => {
                proof {
                    assert(false);
                }
            },
        }
        proof {
            self.handles@ = self.handles@.remove(r.id as int);
            assert(Self::edge_change_post(*old(self), *self, h.id as int, r.id as int));
            Self::lemma_wf_after_edge_change(
                *old(self),
                *self,
                h.id as int,
                r.id as int,
            );
        }
    }

    /// Appends one more edge to the box `h` points to, aimed where `r`
    /// points, consuming `r`; the handle is unrooted on the way in as in
    /// `set_ref`.
    pub fn push_ref(&mut self, h: &Gc, r: Gc)
        requires
            old(self).wf(),
            old(self).live(h.id as int),
            r.rooted,
            old(self).valid_handle(r),
        ensures
            final(self).wf(),
            Self::edge_change_post(*old(self), *final(self), h.id as int, r.id as int),
            final(self).refs_of(h.id as int) == old(self).refs_of(h.id as int).push(
                Gc { id: r.id, rooted: false },
            ),
    {
        proof {
            assert(old(self).box_ok(h.id as int));
            assert(old(self).box_ok(r.id as int));
        }
        match &mut self.boxes[h.id] {
            Some(b) => {
                b.cell.push_ref(Gc { id: r.id, rooted: false });
            },
            None => {
                proof {
                    assert(false);
                }
            },
        }
        match &mut self.boxes[r.id] {
            Some(b) => {
                b.dec_roots();
            },
            None => {
                proof {
                    assert(false);
                }
            },
        }
        proof {
            self.handles@ = self.handles@.remove(r.id as int);
            assert(Self::edge_change_post(*old(self), *self, h.id as int, r.id as int));
            Self::lemma_wf_after_edge_change(
                *old(self),
                *self,
                h.id as int,
                r.id as int,
            );
        }
    }

    /// Replaces the leaf value of the box `h` points to.
    ///
    /// Leaf data holds no handles, so no rooting moves: the edges, the
    /// root counts and the accounting all stay as they are.
    pub fn set_value(&mut self, h: &Gc, v: T)
        requires
            old(self).wf(),
            old(self).live(h.id as int),
        ensures
            final(self).wf(),
            final(self).boxes@ == old(self).boxes@.update(
                h.id as int,
                Some(
                    GcBox {
                        cell: GcRefCell { value: v, ..old(self).boxv(h.id as int).cell },
                        ..old(self).boxv(h.id as int)
                    },
                ),
            ),
            final(self).handles@ == old(self).handles@,
            final(self).allocated_bytes == old(self).allocated_bytes,
            final(self).freed == old(self).freed,
    {
        match &mut self.boxes[h.id] {
            Some(b) => {
                b.cell.set_value(v);
            },
            None => {
                proof {
                    assert(false);
                }
            },
        }
        proof {
            assert forall|i: int| self.live(i) == old(self).live(i) by {}
            assert forall|i: int| #[trigger] self.live(i) implies self.box_ok(i) by {
                assert(old(self).box_ok(i));
                assert(self.refs_of(i) == old(self).refs_of(i));
            }
            Self::lemma_live_stats_update(old(self).boxes@, self.boxes@, h.id as int, self.n());
        }
    }

    /// Creates a new rooted handle for the box the edge at position `j`
    /// of box `h` points to, as `clone_handle` does for a handle on the
    /// stack: a handle moves out of a managed location, so it is rooted
    /// on the way out.
    pub fn clone_ref(&mut self, h: &Gc, j: usize) -> (h2: Gc)
        requires
            old(self).wf(),
            old(self).live(h.id as int),
            j < old(self).refs_of(h.id as int).len(),
            old(self).boxv(old(self).refs_of(h.id as int)[j as int].id as int).roots < usize::MAX,
        ensures
            final(self).wf(),
            h2.rooted,
            h2.id == old(self).refs_of(h.id as int)[j as int].id,
            final(self).valid_handle(h2),
            Self::clone_post(*old(self), *final(self), h2.id as int),
    {
        let t = self.boxes[h.id].as_ref().unwrap().cell.refs[j].id;
        proof {
            assert(self.box_ok(h.id as int));
            assert(self.live(t as int));
        }
        let g = Gc { id: t, rooted: false };
        self.clone_handle(&g)
    }

    /// How many boxes are currently live in this scope.
    pub fn live_boxes(&self) -> (c: usize)
        ensures
            c == Self::live_count(self.boxes@, self.n()),
    {
        let n = self.boxes.len();
        let mut c: usize = 0;
        let mut i: usize = 0;
        while i < n
            invariant
                i <= n,
                n == self.boxes@.len(),
                c <= i,
                c == Self::live_count(self.boxes@, i as int),
            decreases n - i,
        {
            let here = match &self.boxes[i] {
                Some(_) => true,
                None => false,
            };
            if here {
                c = c + 1;
            }
            i += 1;
        }
        c
    }

    /// Tears the scope down, dropping every box still live, and returns
    /// how many there were. With the accounting invariant this shows that
    /// every box ever allocated is dropped exactly once: the `freed` ones
    /// at their sweep, and these now.
    pub fn teardown(self) -> (dropped: usize)
        requires
            self.wf(),
        ensures
            dropped == Self::live_count(self.boxes@, self.n()),
            dropped + self.freed@ == self.boxes@.len(),
    {
        let dropped = self.live_boxes();
        dropped
    }

    /// Shared access to the leaf data of the box `h` points to.
    pub fn get(&self, h: &Gc) -> (v: &T)
        requires
            self.live(h.id as int),
        ensures
            *v == self.boxv(h.id as int).cell.value,
    {
        &self.boxes[h.id].as_ref().unwrap().cell.value
    }

    /// The root count of the box `h` points to.
    pub fn root_count(&self, h: &Gc) -> (n: usize)
        requires
            self.live(h.id as int),
        ensures
            n == self.boxv(h.id as int).roots,
    {
        self.boxes[h.id].as_ref().unwrap().roots
    }
}

} // verus!
