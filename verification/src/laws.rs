//! The guarantees that hold across whole call sequences, stated once and
//! proved: allocation order is preserved, handles stay valid under growth,
//! and a live cursor is undisturbed by growth.

use vstd::prelude::*;

use crate::arena::Arena;
use crate::iterable::Iter;
use crate::iterable::IterableArena;
use crate::model::extends;
use crate::model::lemma_extends_flat_prefix;

verus! {

/// Order preservation: every allocation appends its values, in production
/// order, to the arena's contents (each allocation function's contract says
/// so), and appending composes — after any two allocation steps the contents
/// are the earlier contents followed by both batches in order. Since
/// `into_vec` returns the contents exactly, it yields every element in the
/// order it was produced, however many chunk boundaries were crossed.
pub proof fn lemma_order_preservation<T>(
    a0: Arena<T>,
    a1: Arena<T>,
    a2: Arena<T>,
    xs: Seq<T>,
    ys: Seq<T>,
)
    requires
        a1.flat() == a0.flat() + xs,
        a2.flat() == a1.flat() + ys,
    ensures
        a2.flat() == a0.flat() + (xs + ys),
{
    assert(a2.flat() =~= a0.flat() + (xs + ys));
}

/// Handle stability: when the chunk structure evolves as any allocation
/// call's contract allows (`extends`), every handle that was in range keeps
/// reading the same value. With `get`'s contract this is address stability:
/// a handle returned by an allocation call denotes an unchanged value after
/// arbitrarily many further allocations.
pub proof fn lemma_handle_stability<T>(a0: Arena<T>, a1: Arena<T>, h: int)
    requires
        extends(a0.chunk_seq(), a1.chunk_seq()),
        0 <= h < a0.flat().len(),
    ensures
        a0.flat().len() <= a1.flat().len(),
        a1.flat()[h] == a0.flat()[h],
{
    lemma_extends_flat_prefix(a0.chunk_seq(), a1.chunk_seq());
}

/// Handle stability on an iterable arena, word for word as on `Arena`.
pub proof fn lemma_handle_stability_iterable<T>(a0: IterableArena<T>, a1: IterableArena<T>, h: int)
    requires
        extends(a0.chunk_seq(), a1.chunk_seq()),
        0 <= h < a0.flat().len(),
    ensures
        a0.flat().len() <= a1.flat().len(),
        a1.flat()[h] == a0.flat()[h],
{
    lemma_extends_flat_prefix(a0.chunk_seq(), a1.chunk_seq());
}

/// Live iteration tolerates growth: when the arena evolves as any
/// allocation call's contract allows (`extends`), a cursor that was valid
/// stays valid, its position in allocation order does not move, and the
/// contents it has already walked are unchanged. So a cursor keeps
/// producing elements, in allocation order, across interleaved allocations,
/// and picks up elements allocated after it started.
pub proof fn lemma_iteration_tolerates_growth<T>(
    it: Iter,
    a0: IterableArena<T>,
    a1: IterableArena<T>,
)
    requires
        it.wf(a0),
        extends(a0.chunk_seq(), a1.chunk_seq()),
    ensures
        it.wf(a1),
        it.pos(a1) == it.pos(a0),
        a0.flat().is_prefix_of(a1.flat()),
{
    let pre = a0.chunk_seq();
    let post = a1.chunk_seq();
    lemma_extends_flat_prefix(pre, post);
    if (it.chunk as int) < pre.len() - 1 {
        assert(post[it.chunk as int] == pre[it.chunk as int]);
    } else {
        assert(it.chunk as int == pre.len() - 1);
        assert(pre.last().is_prefix_of(post[pre.len() - 1]));
    }
}

} // verus!
