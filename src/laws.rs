//! Properties that relate several operations of the heap.

use vstd::prelude::*;

use crate::heap::{
    collected, is_path, lemma_path_extend, points_to, reachable, Heap, HeapRef, ManagedValue,
};
use crate::value::{Allocation, Payload};

verus! {

/// A value stored by `allocate` is what `dereference` returns right after:
/// given the heaps before and after the allocation as `allocate` describes
/// them, the new block holds exactly the allocated value.
pub proof fn lemma_dereference_after_allocate<T: Allocation>(
    before: Heap,
    after: Heap,
    r: HeapRef<T>,
    v: T,
)
    requires
        after.objects() == before.objects().insert(r.block(), v.upcast_spec()),
    ensures
        after.value_of::<T>(r.block()) == Some(v),
{
    T::lemma_upcast_downcast(v);
}

/// Erasing a typed handle and downcasting it to its own type always
/// succeeds and gives back a handle to the same block.
pub proof fn lemma_erase_then_downcast<T: Allocation>(r: HeapRef<T>)
    ensures
        r.erase_spec().downcast_spec::<T>() == Ok::<HeapRef<T>, ManagedValue>(r),
        r.erase_spec().block() == r.block(),
{
    HeapRef::<T>::lemma_at_block(r);
    r.lemma_block_bound();
    ManagedValue::lemma_at(r.block(), T::tag());
}

/// Downcasting to a type other than the one stored fails, hands back the
/// same handle, and that handle still downcasts to its true type.
pub proof fn lemma_downcast_mismatch<T: Allocation, U: Allocation>(m: ManagedValue)
    requires
        m.kind_spec() == U::tag(),
        T::tag() != U::tag(),
    ensures
        m.downcast_spec::<T>() == Err::<HeapRef<T>, ManagedValue>(m),
        m.downcast_spec::<U>() is Ok,
        m.downcast_spec::<U>()->Ok_0.block() == m.block(),
{
    m.lemma_block_bound();
    HeapRef::<U>::lemma_at_block_of(m.block());
}

/// Every block on a path from a root survives a collection, and the path
/// is still a path among the survivors.
proof fn lemma_path_survives(objs: Map<nat, Payload>, roots: Set<nat>, p: Seq<nat>)
    requires
        is_path(objs, p),
        roots.contains(p[0]),
    ensures
        is_path(collected(objs, roots), p),
{
    let c = collected(objs, roots);
    assert forall|k: int| 0 <= k < p.len() implies #[trigger] c.contains_key(p[k]) by {
        let q = p.take(k + 1);
        assert forall|n: int| 0 <= n < q.len() - 1 implies #[trigger] points_to(objs, q[n], q[n + 1]) by {
            assert(points_to(objs, p[n], p[n + 1]));
        }
        assert(is_path(objs, q));
        assert(q.last() == p[k]);
        assert(reachable(objs, roots, p[k]));
        if k > 0 {
            assert(points_to(objs, p[k - 1], p[(k - 1) + 1]));
        }
    }
    assert forall|k: int| 0 <= k < p.len() - 1 implies #[trigger] points_to(c, p[k], p[k + 1]) by {
        assert(points_to(objs, p[k], p[k + 1]));
        assert(c.contains_key(p[k]));
        assert(c.contains_key(p[k + 1]));
        let n = choose|n: int|
            0 <= n < objs[p[k]].children().len() && #[trigger] objs[p[k]].children()[n].block() == p[k + 1];
        assert(c[p[k]] == objs[p[k]]);
        assert(c[p[k]].children()[n].block() == p[k + 1]);
    }
    assert(c.contains_key(p[0]));
}

/// Collecting a second time, with no allocation or change of roots in
/// between, keeps every block that the first collection kept.
pub proof fn lemma_collect_idempotent(objs: Map<nat, Payload>, roots: Set<nat>)
    ensures
        collected(collected(objs, roots), roots) == collected(objs, roots),
{
    let c = collected(objs, roots);
    assert forall|j: nat| #[trigger] c.contains_key(j) implies reachable(c, roots, j) by {
        let p = choose|p: Seq<nat>| #[trigger] is_path(objs, p) && roots.contains(p[0]) && p.last() == j;
        lemma_path_survives(objs, roots, p);
    }
    assert(collected(c, roots) =~= c);
}

/// After a collection every block that was reachable from the root set
/// still holds the value it held, and every other block is gone.
pub proof fn lemma_collect_keeps_exactly_reachable<T: Allocation>(before: Heap, after: Heap, b: nat)
    requires
        after.objects() == collected(before.objects(), before.root_blocks()),
    ensures
        reachable(before.objects(), before.root_blocks(), b) ==> after.value_of::<T>(b)
            == before.value_of::<T>(b) && after.objects().contains_key(b),
        !reachable(before.objects(), before.root_blocks(), b) ==> !after.objects().contains_key(b)
            && after.value_of::<T>(b) is None,
{
    if reachable(before.objects(), before.root_blocks(), b) {
        let p = choose|p: Seq<nat>|
            #[trigger] is_path(before.objects(), p) && before.root_blocks().contains(p[0]) && p.last() == b;
        if p.len() > 1 {
            let k = p.len() - 2;
            assert(points_to(before.objects(), p[k], p[k + 1]));
        }
    }
}

/// One held handle more: what a reachable block points to is reachable.
proof fn lemma_reach_step(objs: Map<nat, Payload>, roots: Set<nat>, i: nat, j: nat)
    requires
        reachable(objs, roots, i),
        points_to(objs, i, j),
    ensures
        reachable(objs, roots, j),
{
    let p = choose|p: Seq<nat>| #[trigger] is_path(objs, p) && roots.contains(p[0]) && p.last() == i;
    lemma_path_extend(objs, p, j);
}

/// Along a path, reachability of one block carries to every later one.
proof fn lemma_reach_forward(objs: Map<nat, Payload>, roots: Set<nat>, c: Seq<nat>, k: int, m: int)
    requires
        is_path(objs, c),
        0 <= k <= m < c.len(),
        reachable(objs, roots, c[k]),
    ensures
        reachable(objs, roots, c[m]),
    decreases m - k,
{
    if k < m {
        lemma_reach_forward(objs, roots, c, k, m - 1);
        assert(points_to(objs, c[m - 1], c[(m - 1) + 1]));
        lemma_reach_step(objs, roots, c[m - 1], c[m]);
    }
}

/// A cycle of blocks is kept whole or reclaimed whole: if a collection
/// keeps one block of it, it keeps them all.
pub proof fn lemma_cycle_kept_whole(objs: Map<nat, Payload>, roots: Set<nat>, c: Seq<nat>, k: int)
    requires
        is_path(objs, c),
        points_to(objs, c.last(), c[0]),
        0 <= k < c.len(),
        collected(objs, roots).contains_key(c[k]),
    ensures
        forall|m: int| 0 <= m < c.len() ==> collected(objs, roots).contains_key(#[trigger] c[m]),
{
    assert forall|m: int| 0 <= m < c.len() implies collected(objs, roots).contains_key(#[trigger] c[m]) by {
        assert(reachable(objs, roots, c[k]));
        if k <= m {
            lemma_reach_forward(objs, roots, c, k, m);
        } else {
            lemma_reach_forward(objs, roots, c, k, c.len() - 1);
            lemma_reach_step(objs, roots, c.last(), c[0]);
            lemma_reach_forward(objs, roots, c, 0, m);
        }
        if m > 0 {
            assert(points_to(objs, c[m - 1], c[(m - 1) + 1]));
        }
    }
}

} // verus!
