use vstd::prelude::*;

use crate::gc::Gc;
use crate::gc_box::GcBox;
use crate::gc_state::GcState;

verus! {

broadcast use vstd::multiset::group_multiset_axioms;

/// For every box alive in the scope, the root count equals the number of
/// outstanding rooted handles pointing at it: that is the reading of the
/// well-formedness invariant against the ghost record of issued handles.
pub proof fn lemma_root_count_accurate<T>(s: GcState<T>, i: int)
    requires
        s.wf(),
        s.live(i),
    ensures
        s.boxv(i).roots == s.handles@.count(i),
{
    assert(s.box_ok(i));
}

/// The mark bit is false at every box at every quiescent point: outside
/// a running collection the invariant keeps every box unmarked.
pub proof fn lemma_marks_clear_at_quiescence<T>(s: GcState<T>, i: int)
    requires
        s.wf(),
        s.live(i),
    ensures
        !s.boxv(i).marked,
{
    assert(s.box_ok(i));
}

/// A collection keeps what the rooted handles can reach: every box
/// reachable, along payload edges, from the target of an outstanding
/// rooted handle is still alive afterwards.
pub proof fn lemma_collect_keeps_reachable<T>(pre: GcState<T>, post: GcState<T>, a: int, b: int)
    requires
        pre.wf(),
        GcState::collect_post(pre, post),
        pre.handles@.count(a) > 0,
        pre.reachable(a, b),
    ensures
        post.live(b),
{
    assert(pre.live(a));
    assert(pre.box_ok(a));
    assert(pre.boxv(a).roots > 0);
    let k = choose|k: nat| pre.reach_k(a, b, k);
    pre.lemma_reach_live(a, b, k);
    assert(pre.reachable(a, b) && pre.live(a) && pre.boxv(a).roots > 0);
    assert(pre.root_reachable(b));
}

/// A collection sweeps the rest: no box that was unreachable from every
/// root remains alive afterwards.
pub proof fn lemma_collect_sweeps_unreachable<T>(pre: GcState<T>, post: GcState<T>, b: int)
    requires
        pre.wf(),
        GcState::collect_post(pre, post),
        !pre.root_reachable(b),
    ensures
        !post.live(b),
{
}

/// A path out of a surviving box still exists after a collection.
proof fn lemma_reach_restrict<T>(pre: GcState<T>, post: GcState<T>, a: int, b: int, k: nat)
    requires
        pre.wf(),
        GcState::collect_post(pre, post),
        pre.live(a),
        pre.root_reachable(a),
        pre.reach_k(a, b, k),
    ensures
        post.reach_k(a, b, k),
    decreases k,
{
    if a != b {
        let m = choose|m: int| #[trigger] pre.edge(a, m) && pre.reach_k(m, b, (k - 1) as nat);
        assert(pre.box_ok(a));
        let j = choose|j: int| 0 <= j < pre.refs_of(a).len() && pre.refs_of(a)[j].id == m;
        assert(pre.live(pre.refs_of(a)[j].id as int));
        pre.lemma_root_reachable_edge(a, m);
        lemma_reach_restrict(pre, post, m, b, (k - 1) as nat);
        assert(post.live(a));
        assert(post.boxes@[a] == pre.boxes@[a]);
        assert(post.refs_of(a) == pre.refs_of(a));
        assert(post.refs_of(a)[j].id == m);
        assert(post.edge(a, m));
        assert(post.reach_k(a, b, k));
    }
}

/// Collecting is idempotent while no handle changes: a second collection
/// right after a first one finds every live box still reachable, sweeps
/// nothing, and leaves the state exactly as it was.
pub proof fn lemma_collect_idempotent<T>(s1: GcState<T>, s2: GcState<T>, s3: GcState<T>)
    requires
        s1.wf(),
        s2.wf(),
        s3.wf(),
        GcState::collect_post(s1, s2),
        GcState::collect_post(s2, s3),
    ensures
        s3.boxes@ == s2.boxes@,
        s3.allocated_bytes == s2.allocated_bytes,
        s3.handles@ == s2.handles@,
        s3.freed@ == s2.freed@,
{
    assert forall|b: int| #[trigger] s2.live(b) implies s2.root_reachable(b) by {
        assert(s1.live(b) && s1.root_reachable(b));
        let r = choose|r: int| #[trigger] s1.reachable(r, b) && s1.live(r) && s1.boxv(r).roots > 0;
        let k = choose|k: nat| s1.reach_k(r, b, k);
        assert(s1.reach_k(r, r, 0));
        assert(s1.reachable(r, r));
        assert(s1.root_reachable(r));
        assert(s2.live(r));
        lemma_reach_restrict(s1, s2, r, b, k);
        assert(s2.reach_k(r, b, k));
        assert(s2.reachable(r, b));
        assert(s2.boxes@[r] == s1.boxes@[r]);
        assert(s2.boxv(r).roots > 0);
    }
    assert forall|i: int| 0 <= i < s2.boxes@.len() implies s3.boxes@[i] == s2.boxes@[i] by {
        if s2.live(i) {
            assert(s3.live(i));
            assert(s3.boxes@[i] == s2.boxes@[i]);
        } else {
            assert(!(s2.live(i) && s2.root_reachable(i)));
            assert(!s3.live(i));
            assert(s2.boxes@[i] is None);
            assert(s3.boxes@[i] is None);
        }
    }
    assert(s3.boxes@ =~= s2.boxes@);
    assert(s3.allocated_bytes == GcState::<T>::live_bytes(s3.boxes@, s3.n()));
    assert(s2.allocated_bytes == GcState::<T>::live_bytes(s2.boxes@, s2.n()));
    assert(s3.freed@ + GcState::<T>::live_count(s3.boxes@, s3.n()) == s2.freed@
        + GcState::<T>::live_count(s2.boxes@, s2.n()));
}

/// Rooting a box and then unrooting it again is a no-op: the root count
/// and everything else in the box are exactly as before.
pub proof fn lemma_root_unroot_no_op<T>(b0: GcBox<T>, b1: GcBox<T>, b2: GcBox<T>)
    requires
        b0.roots < usize::MAX,
        b1.roots == b0.roots + 1,
        b1.marked == b0.marked,
        b1.cell == b0.cell,
        b2.roots == b1.roots - 1,
        b2.marked == b1.marked,
        b2.cell == b1.cell,
    ensures
        b2 == b0,
{
}

/// Cloning a handle and then dropping the clone is a no-op on root
/// counts, and indeed on the whole collector state.
pub proof fn lemma_clone_drop_no_op<T>(s1: GcState<T>, s2: GcState<T>, s3: GcState<T>, t: int)
    requires
        GcState::clone_post(s1, s2, t),
        GcState::drop_post(s2, s3, t),
    ensures
        s3.boxes@ == s1.boxes@,
        s3.handles@ == s1.handles@,
        s3.allocated_bytes == s1.allocated_bytes,
        s3.freed == s1.freed,
{
    assert(s2.boxv(t).roots == s1.boxv(t).roots + 1);
    assert(s3.boxes@[t]->Some_0 == s1.boxes@[t]->Some_0);
    assert forall|i: int| 0 <= i < s1.boxes@.len() implies s3.boxes@[i] == s1.boxes@[i] by {
        if i != t {
            assert(s2.boxes@[i] == s1.boxes@[i]);
        } else {
            assert(s1.boxes@[t] is Some && s3.boxes@[t] is Some);
        }
    }
    assert(s3.boxes@ =~= s1.boxes@);
    assert(s3.handles@ =~= s1.handles@);
}

/// Allocating a payload whose handles are rooted leaves those handles
/// unrooted inside the fresh box; its root count is one — the returned
/// outer handle — and dropping that handle takes it down to zero.
pub proof fn lemma_alloc_unroots_payload<T>(
    s1: GcState<T>,
    s2: GcState<T>,
    s3: GcState<T>,
    value: T,
    refs: Seq<Gc>,
    h: Gc,
)
    requires
        GcState::alloc_post(s1, s2, value, refs, h),
        GcState::drop_post(s2, s3, h.id as int),
    ensures
        s2.refs_of(h.id as int).len() == refs.len(),
        forall|k: int| 0 <= k < refs.len() ==> !(#[trigger] s2.refs_of(h.id as int)[k]).rooted,
        s2.boxv(h.id as int).roots == 1,
        s3.boxv(h.id as int).roots == 0,
{
    assert(s2.refs_of(h.id as int) =~= refs.map_values(|g: Gc| Gc { id: g.id, rooted: false }));
    assert forall|k: int| 0 <= k < refs.len() implies !(
    #[trigger] s2.refs_of(h.id as int)[k]).rooted by {
        assert(s2.refs_of(h.id as int)[k] == (Gc { id: refs[k].id, rooted: false }));
    }
}

} // verus!
