//! An arena that can be iterated while it is still allocating. The cursor
//! holds no reference into the arena: it re-reads the arena's state on every
//! step, so the storage may grow between steps without disturbing it.
//!
//! Termination policy: a step that finds no element returns nothing but does
//! not end the cursor. If the arena grows afterwards, later steps produce
//! the new elements. This works because retired chunks are frozen and growth
//! only appends chunks: a cursor standing at what was the current chunk
//! simply finds, on its next step, that the same index now names a frozen
//! chunk and the live chunk moved one further.

use vstd::prelude::*;

use crate::arena::Arena;
use crate::arena::initial_capacity;
use crate::model::extends;
use crate::model::flat_of;
use crate::model::lemma_flat_of_first;
use crate::model::lemma_flat_of_index;
use crate::model::lemma_flat_of_split;
use crate::model::lemma_flat_of_take_succ;
use crate::model::next_pow2;

verus! {

/// An arena with the same allocation surface as `Arena`, plus live
/// iteration in allocation order.
pub struct IterableArena<T> {
    arena: Arena<T>,
}

/// A cursor over an `IterableArena`: the index of the chunk it stands in
/// and its offset within that chunk. It is resolved against the arena on
/// every step, so it stays meaningful while the arena grows.
pub struct Iter {
    /// Index of the chunk the cursor stands in (retired chunks first, the
    /// current chunk last).
    pub chunk: usize,
    /// Offset within that chunk: elements before it have been produced.
    pub i: usize,
}

impl<T> IterableArena<T> {
    /// The contents of every chunk, in allocation order.
    pub closed spec fn chunk_seq(self) -> Seq<Seq<T>> {
        self.arena.chunk_seq()
    }

    /// Every element held, in allocation order.
    pub open spec fn flat(self) -> Seq<T> {
        flat_of(self.chunk_seq())
    }

    /// The capacity of the current chunk.
    pub closed spec fn capacity_spec(self) -> usize {
        self.arena.capacity_spec()
    }

    /// The fill of the current chunk.
    pub open spec fn current_len(self) -> nat {
        self.chunk_seq().last().len()
    }

    pub closed spec fn wf(self) -> bool {
        self.arena.wf()
    }

    /// Construct an arena whose first chunk aims at about a kilobyte of `T`.
    pub fn new() -> (a: IterableArena<T>)
        ensures
            a.wf(),
            a.flat() == Seq::<T>::empty(),
            a.current_len() == 0,
            a.chunk_seq().len() == 1,
            a.capacity_spec() as nat == initial_capacity(vstd::layout::size_of::<T>()),
    {
        let arena = Arena::new();
        IterableArena { arena }
    }

    /// Construct an arena whose first chunk has room for `n` values,
    /// floored to a minimum of one.
    pub fn with_capacity(n: usize) -> (a: IterableArena<T>)
        ensures
            a.wf(),
            a.flat() == Seq::<T>::empty(),
            a.current_len() == 0,
            a.chunk_seq().len() == 1,
            a.capacity_spec() == (if n >= 1 {
                n
            } else {
                1
            }),
    {
        let arena = Arena::with_capacity(n);
        IterableArena { arena }
    }

    /// Allocate one value; returns its handle, stable for the arena's whole
    /// life. Unlike `Arena`, nothing exclusive is handed out, so iteration
    /// may go on across allocations.
    pub fn alloc_one(&mut self, value: T) -> (h: usize)
        requires
            old(self).wf(),
            old(self).flat().len() < usize::MAX,
            old(self).current_len() == old(self).capacity_spec() ==> 2 * old(self).capacity_spec()
                <= usize::MAX,
        ensures
            final(self).wf(),
            h == old(self).flat().len(),
            final(self).flat() == old(self).flat().push(value),
            extends(old(self).chunk_seq(), final(self).chunk_seq()),
    {
        self.arena.alloc_one(value)
    }

    /// Allocate every element of `values`, in order, as one contiguous run;
    /// returns the handle of the first element, and the rest follow it.
    pub fn alloc_extend(&mut self, values: Vec<T>) -> (h: usize)
        requires
            old(self).wf(),
            old(self).flat().len() + values@.len() <= usize::MAX,
            old(self).current_len() + values@.len() > old(self).capacity_spec() ==> (2 * old(self).capacity_spec()
                <= usize::MAX && next_pow2(values@.len() as nat) <= usize::MAX),
        ensures
            final(self).wf(),
            h == old(self).flat().len(),
            final(self).flat() == old(self).flat() + values@,
            extends(old(self).chunk_seq(), final(self).chunk_seq()),
            values@.is_suffix_of(final(self).chunk_seq().last()),
    {
        self.arena.alloc_extend(values)
    }

    /// Allocate a batch whose producer gave the lower-bound length estimate
    /// `hint`; see `Arena::alloc_extend_hinted`.
    pub fn alloc_extend_hinted(&mut self, values: Vec<T>, hint: usize) -> (h: usize)
        requires
            old(self).wf(),
            hint <= values@.len(),
            old(self).flat().len() + values@.len() <= usize::MAX,
            old(self).current_len() + values@.len() > old(self).capacity_spec() ==> (2 * old(self).capacity_spec()
                <= usize::MAX && next_pow2(values@.len() as nat) <= usize::MAX),
        ensures
            final(self).wf(),
            h == old(self).flat().len(),
            final(self).flat() == old(self).flat() + values@,
            extends(old(self).chunk_seq(), final(self).chunk_seq()),
            values@.is_suffix_of(final(self).chunk_seq().last()),
    {
        self.arena.alloc_extend_hinted(values, hint)
    }

    /// Read the element with handle `h`, its position in allocation order.
    pub fn get(&self, h: usize) -> (r: &T)
        requires
            self.wf(),
            (h as int) < self.flat().len(),
        ensures
            *r == self.flat()[h as int],
    {
        self.arena.get(h)
    }

    /// The number of elements allocated so far.
    pub fn len(&self) -> (n: usize)
        requires
            self.wf(),
        ensures
            n == self.flat().len(),
    {
        self.arena.len()
    }

    /// Consume the arena and return every element, in allocation order.
    pub fn into_vec(self) -> (r: Vec<T>)
        ensures
            r@ == self.flat(),
    {
        self.arena.into_vec()
    }

    /// Begin iterating in allocation order. The cursor reads the arena's
    /// state afresh on every step, so elements allocated after iteration
    /// began are produced too; a step that finds nothing returns `None`
    /// without ending the cursor.
    pub fn iter(&self) -> (it: Iter)
        ensures
            it.chunk == 0,
            it.i == 0,
            it.wf(*self),
            it.pos(*self) == 0,
    {
        proof {
            self.arena.lemma_shape();
            assert(self.chunk_seq().take(0).len() == 0);
            assert(flat_of(self.chunk_seq().take(0)) =~= Seq::<T>::empty());
        }
        Iter { chunk: 0, i: 0 }
    }
}

impl Iter {
    /// The cursor stands inside the arena's chunk structure.
    pub open spec fn wf<T>(self, a: IterableArena<T>) -> bool {
        &&& (self.chunk as int) < a.chunk_seq().len()
        &&& (self.i as int) <= a.chunk_seq()[self.chunk as int].len()
    }

    /// The cursor's position in allocation order: how many elements it has
    /// produced so far.
    pub open spec fn pos<T>(self, a: IterableArena<T>) -> int {
        flat_of(a.chunk_seq().take(self.chunk as int)).len() + self.i
    }

    /// A cursor never stands past the end of the contents.
    pub proof fn lemma_pos_bound<T>(self, a: IterableArena<T>)
        requires
            self.wf(a),
        ensures
            0 <= self.pos(a) <= a.flat().len(),
    {
        lemma_flat_of_split(a.chunk_seq(), self.chunk as int + 1);
        lemma_flat_of_take_succ(a.chunk_seq(), self.chunk as int);
    }

    /// Produce the next element in allocation order, or `None` when the
    /// cursor has caught up with everything allocated so far. A `None` does
    /// not end the cursor: should the arena grow before the next step, that
    /// step produces the new elements.
    #[verifier::loop_isolation(false)]
    pub fn next<'a, T>(&mut self, a: &'a IterableArena<T>) -> (r: Option<&'a T>)
        requires
            a.wf(),
            old(self).wf(*a),
        ensures
            final(self).wf(*a),
            old(self).pos(*a) < a.flat().len() ==> (r matches Some(x) && *x == a.flat()[old(
                self,
            ).pos(*a)] && final(self).pos(*a) == old(self).pos(*a) + 1),
            old(self).pos(*a) >= a.flat().len() ==> (r is None && final(self).pos(*a) == old(
                self,
            ).pos(*a)),
    {
        let ghost cs = a.chunk_seq();
        let ghost start_pos = old(self).pos(*a);
        let retired = a.arena.retired_count();
        let mut clen = a.arena.chunk_len(self.chunk);
        // step over exhausted retired chunks: they are frozen, so their end
        // is final; the position in allocation order does not move
        while self.chunk < retired && self.i == clen
            invariant
                self.wf(*a),
                self.pos(*a) == start_pos,
                clen == cs[self.chunk as int].len(),
            decreases retired - self.chunk,
        {
            proof {
                lemma_flat_of_take_succ(cs, self.chunk as int);
            }
            self.chunk = self.chunk + 1;
            self.i = 0;
            clen = a.arena.chunk_len(self.chunk);
        }
        if self.i < clen {
            proof {
                lemma_flat_of_index(cs, self.chunk as int, self.i as int);
            }
            let r = a.arena.element_at(self.chunk, self.i);
            self.i = self.i + 1;
            Some(r)
        } else {
            // the cursor stands at the live end of the current chunk:
            // nothing more right now
            proof {
                assert(self.chunk == retired);
                lemma_flat_of_split(cs, self.chunk as int);
                lemma_flat_of_first(cs.skip(self.chunk as int));
                assert(cs.skip(self.chunk as int).skip(1).len() == 0);
                assert(flat_of(cs.skip(self.chunk as int).skip(1)) =~= Seq::<T>::empty());
                assert(flat_of(cs.skip(self.chunk as int)) =~= cs[self.chunk as int]);
                assert(self.pos(*a) == a.flat().len());
            }
            None
        }
    }
}

} // verus!
