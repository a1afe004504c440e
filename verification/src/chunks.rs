//! The storage behind an arena: one current chunk accepting pushes, the
//! retired chunks that came before it, and the growth step that replaces a
//! filled chunk with a larger one.

use vstd::prelude::*;

use crate::model::extends;
use crate::model::flat_of;
use crate::model::grown_capacity;
use crate::model::lemma_flat_of_push;
use crate::model::lemma_next_pow2_ge;
use crate::model::next_pow2;
use crate::model::next_power_of_two;
use crate::model::pow2;
use crate::model::views_of;

verus! {

/// An ordered collection of chunks. `current` is the one chunk still
/// accepting pushes and `cap` is its fixed capacity; `rest` holds the
/// retired chunks, oldest first, which are never written again. `total`
/// counts every element held, across all chunks.
pub(crate) struct ChunkList<T> {
    pub(crate) current: Vec<T>,
    pub(crate) rest: Vec<Vec<T>>,
    pub(crate) cap: usize,
    pub(crate) total: usize,
}

impl<T> ChunkList<T> {
    /// The contents of every chunk, in allocation order: the retired chunks,
    /// then the current chunk last.
    pub(crate) open spec fn chunk_seq(self) -> Seq<Seq<T>> {
        views_of(self.rest@).push(self.current@)
    }

    /// Every element held, in allocation order.
    pub(crate) open spec fn flat(self) -> Seq<T> {
        flat_of(self.chunk_seq())
    }

    pub(crate) open spec fn wf(self) -> bool {
        &&& 1 <= self.cap
        &&& self.current@.len() <= self.cap
        &&& self.total == self.flat().len()
        // capacity at least doubles on every retirement, so the chunk count
        // stays logarithmic in the capacity
        &&& pow2(self.rest@.len() as nat) <= self.cap
    }

    /// Retire the current chunk and open a fresh one with room for at least
    /// `additional` more elements: capacity doubles, floored at the next
    /// power of two of the request.
    pub(crate) fn reserve(&mut self, additional: usize)
        requires
            old(self).wf(),
            2 * old(self).cap <= usize::MAX,
            next_pow2(additional as nat) <= usize::MAX,
        ensures
            final(self).wf(),
            final(self).cap as nat == grown_capacity(old(self).cap as nat, additional as nat),
            final(self).cap >= additional,
            final(self).current@ == Seq::<T>::empty(),
            final(self).rest@ == old(self).rest@.push(old(self).current),
            final(self).chunk_seq() == old(self).chunk_seq().push(Seq::<T>::empty()),
            final(self).flat() == old(self).flat(),
            final(self).total == old(self).total,
            extends(old(self).chunk_seq(), final(self).chunk_seq()),
    {
        let ghost pre = *self;
        let double_cap = 2 * self.cap;
        let required_cap = next_power_of_two(additional);
        let new_capacity = if double_cap >= required_cap {
            double_cap
        } else {
            required_cap
        };
        let mut fresh: Vec<T> = Vec::with_capacity(new_capacity);
        core::mem::swap(&mut self.current, &mut fresh);
        self.rest.push(fresh);
        self.cap = new_capacity;
        proof {
            lemma_next_pow2_ge(additional as nat);
            assert(pow2(self.rest@.len() as nat) == 2 * pow2(pre.rest@.len() as nat));
            assert(views_of(self.rest@) =~= views_of(pre.rest@).push(pre.current@));
            assert(self.chunk_seq() =~= pre.chunk_seq().push(Seq::<T>::empty()));
            lemma_flat_of_push(pre.chunk_seq(), Seq::<T>::empty());
            assert(self.flat() =~= pre.flat());
            assert(pre.current@.is_prefix_of(pre.current@)) by {
                assert(pre.current@ =~= pre.current@.subrange(0, pre.current@.len() as int));
            }
            assert(extends(pre.chunk_seq(), self.chunk_seq()));
        }
    }
}

} // verus!
