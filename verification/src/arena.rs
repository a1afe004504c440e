//! The arena itself: single-item and batch allocation into chunked storage,
//! handle-based reads, and conversion into one plain ordered vector.
//!
//! Every allocation returns a handle: the element's position in allocation
//! order. A handle stays valid for the arena's whole life, because chunks
//! are never resized, reordered or dropped while the arena lives; `get`
//! resolves a handle to the element. Exclusive access is enforced by the
//! borrow rules themselves: allocation takes the arena exclusively, so no
//! second mutation can be in progress at the same time.

use vstd::prelude::*;

use crate::chunks::ChunkList;
use crate::model::extends;
use crate::model::flat_of;
use crate::model::grown_capacity;
use crate::model::lemma_extends_grow_last;
use crate::model::lemma_extends_push;
use crate::model::lemma_flat_of_first;
use crate::model::lemma_flat_of_grow_last;
use crate::model::lemma_flat_of_index;
use crate::model::lemma_flat_of_push;
use crate::model::lemma_flat_of_split;
use crate::model::lemma_flat_of_take_succ;
use crate::model::lemma_next_pow2_ge;
use crate::model::lemma_next_pow2_mono;
use crate::model::lemma_pow2_ge;
use crate::model::pow2;
use crate::model::next_pow2;
use crate::model::spliced_capacity;
use crate::model::views_of;

verus! {

/// Size in bytes aimed at by a default-constructed arena's first chunk.
const INITIAL_SIZE: usize = 1024;

/// Minimum capacity of a chunk.
const MIN_CAPACITY: usize = 1;

/// The capacity of the first chunk of a default-constructed arena holding
/// elements of the given byte size: about a kilobyte of elements, and room
/// for at least one.
pub open spec fn initial_capacity(size: nat) -> nat {
    let s = if size >= 1 {
        size
    } else {
        1
    };
    let n = 1024nat / s;
    if n >= 1 {
        n
    } else {
        1
    }
}

/// An arena of objects of type `T`: allocation pushes into the current
/// chunk, growth retires it and opens a larger one, and nothing moves or is
/// freed until the whole arena goes.
pub struct Arena<T> {
    chunks: ChunkList<T>,
}

impl<T> Arena<T> {
    /// The contents of every chunk, in allocation order: the retired chunks
    /// oldest first, then the current chunk last.
    pub closed spec fn chunk_seq(self) -> Seq<Seq<T>> {
        self.chunks.chunk_seq()
    }

    /// Every element held, in allocation order. An element's handle is its
    /// position here.
    pub open spec fn flat(self) -> Seq<T> {
        flat_of(self.chunk_seq())
    }

    /// The capacity of the current chunk.
    pub closed spec fn capacity_spec(self) -> usize {
        self.chunks.cap
    }

    /// The fill of the current chunk.
    pub open spec fn current_len(self) -> nat {
        self.chunk_seq().last().len()
    }

    pub closed spec fn wf(self) -> bool {
        self.chunks.wf()
    }

    /// There is always a current chunk, and a well-formed arena's current
    /// chunk never exceeds its capacity.
    pub proof fn lemma_shape(self)
        ensures
            self.chunk_seq().len() >= 1,
            self.wf() ==> 1 <= self.capacity_spec() && self.current_len() <= self.capacity_spec()
                && self.flat().len() <= usize::MAX,
    {
        assert(self.chunk_seq().last() == self.chunks.current@);
    }

    /// Construct an arena whose first chunk aims at about a kilobyte of `T`.
    pub fn new() -> (a: Arena<T>)
        ensures
            a.wf(),
            a.flat() == Seq::<T>::empty(),
            a.current_len() == 0,
            a.chunk_seq().len() == 1,
            a.capacity_spec() as nat == initial_capacity(vstd::layout::size_of::<T>()),
    {
        let size = core::mem::size_of::<T>();
        let size = if size >= 1 {
            size
        } else {
            1
        };
        Arena::with_capacity(INITIAL_SIZE / size)
    }

    /// Construct an arena whose first chunk has room for `n` values,
    /// floored to a minimum of one.
    pub fn with_capacity(n: usize) -> (a: Arena<T>)
        ensures
            a.wf(),
            a.flat() == Seq::<T>::empty(),
            a.current_len() == 0,
            a.chunk_seq().len() == 1,
            a.capacity_spec() == (if n >= 1 {
                n
            } else {
                1
            }),
    {
        let n = if n >= MIN_CAPACITY {
            n
        } else {
            MIN_CAPACITY
        };
        let a = Arena {
            chunks: ChunkList { current: Vec::with_capacity(n), rest: Vec::new(), cap: n, total: 0 },
        };
        proof {
            assert(views_of(a.chunks.rest@).len() == 0);
            assert(a.chunk_seq().drop_last() =~= views_of(a.chunks.rest@));
            assert(flat_of(a.chunk_seq().drop_last()) =~= Seq::<T>::empty());
            assert(a.flat() =~= Seq::<T>::empty());
        }
        a
    }

    /// The number of elements allocated so far.
    pub fn len(&self) -> (n: usize)
        requires
            self.wf(),
        ensures
            n == self.flat().len(),
    {
        self.chunks.total
    }

    /// The capacity of the current chunk.
    pub fn capacity(&self) -> (n: usize)
        ensures
            n == self.capacity_spec(),
    {
        self.chunks.cap
    }

    /// How many more elements the current chunk can take before the arena
    /// must grow. This is a snapshot: it is stale as soon as another
    /// allocation happens.
    pub fn remaining_capacity(&self) -> (n: usize)
        requires
            self.wf(),
        ensures
            n as int == self.capacity_spec() - self.current_len(),
    {
        proof {
            assert(self.chunk_seq().last() == self.chunks.current@);
        }
        self.chunks.cap - self.chunks.current.len()
    }

    /// The number of chunks, the current one included.
    pub fn chunk_count(&self) -> (n: usize)
        requires
            self.wf(),
        ensures
            n == self.chunk_seq().len(),
            n >= 1,
    {
        proof {
            lemma_pow2_ge(self.chunks.rest@.len() as nat);
        }
        self.chunks.rest.len() + 1
    }

    /// The number of elements in the chunk with the given index (retired
    /// chunks come first, the current chunk is last).
    pub fn chunk_len(&self, j: usize) -> (n: usize)
        requires
            (j as int) < self.chunk_seq().len(),
        ensures
            n == self.chunk_seq()[j as int].len(),
    {
        if j < self.chunks.rest.len() {
            self.chunks.rest[j].len()
        } else {
            self.chunks.current.len()
        }
    }

    /// The number of retired chunks; the chunk with this index is current.
    pub(crate) fn retired_count(&self) -> (n: usize)
        ensures
            n as int == self.chunk_seq().len() - 1,
    {
        self.chunks.rest.len()
    }

    /// Read one element by chunk index and offset within the chunk.
    pub(crate) fn element_at(&self, j: usize, off: usize) -> (r: &T)
        requires
            (j as int) < self.chunk_seq().len(),
            (off as int) < self.chunk_seq()[j as int].len(),
        ensures
            *r == self.chunk_seq()[j as int][off as int],
    {
        if j < self.chunks.rest.len() {
            let c: &Vec<T> = &self.chunks.rest[j];
            proof {
                assert(self.chunk_seq()[j as int] == c@);
            }
            &c[off]
        } else {
            proof {
                assert(self.chunk_seq()[j as int] == self.chunks.current@);
            }
            &self.chunks.current[off]
        }
    }

    /// The current chunk's elements sit at the end of the flattened
    /// contents.
    proof fn lemma_current_in_flat(self)
        ensures
            self.flat().len() == flat_of(self.chunk_seq().drop_last()).len() + self.current_len(),
            self.current_len() <= self.flat().len(),
    {
        let cs = self.chunk_seq();
        assert(cs.len() >= 1);
        assert(flat_of(cs) == flat_of(cs.drop_last()) + cs.last());
    }

    /// Allocate one value. Returns the new element's handle: its position in
    /// allocation order, stable for the arena's whole life. If the current
    /// chunk is full, it is retired and a chunk of twice its capacity opens.
    pub fn alloc_one(&mut self, value: T) -> (h: usize)
        requires
            old(self).wf(),
            old(self).flat().len() < usize::MAX,
            old(self).current_len() == old(self).capacity_spec() ==> 2 * old(self).capacity_spec() <= usize::MAX,
        ensures
            final(self).wf(),
            h == old(self).flat().len(),
            final(self).flat() == old(self).flat().push(value),
            extends(old(self).chunk_seq(), final(self).chunk_seq()),
            old(self).current_len() < old(self).capacity_spec() ==> (final(self).chunk_seq()
                == old(self).chunk_seq().update(
                old(self).chunk_seq().len() - 1,
                old(self).chunk_seq().last().push(value),
            ) && final(self).capacity_spec() == old(self).capacity_spec()),
            old(self).current_len() == old(self).capacity_spec() ==> (final(self).chunk_seq()
                == old(self).chunk_seq().push(seq![value]) && final(self).capacity_spec() == 2
                * old(self).capacity_spec()),
    {
        let r = self.alloc_fast_path(value);
        match r {
            Ok(h) => h,
            Err(value) => self.alloc_slow_path(value),
        }
    }

    /// Push into the current chunk when it has room; hand the value back
    /// when it has none.
    fn alloc_fast_path(&mut self, value: T) -> (r: Result<usize, T>)
        requires
            old(self).wf(),
            old(self).flat().len() < usize::MAX,
        ensures
            final(self).wf(),
            match r {
                Ok(h) => {
                    &&& old(self).current_len() < old(self).capacity_spec()
                    &&& h == old(self).flat().len()
                    &&& final(self).flat() == old(self).flat().push(value)
                    &&& final(self).chunk_seq() == old(self).chunk_seq().update(
                        old(self).chunk_seq().len() - 1,
                        old(self).chunk_seq().last().push(value),
                    )
                    &&& final(self).capacity_spec() == old(self).capacity_spec()
                    &&& extends(old(self).chunk_seq(), final(self).chunk_seq())
                },
                Err(v) => {
                    &&& v == value
                    &&& *final(self) == *old(self)
                    &&& old(self).current_len() == old(self).capacity_spec()
                },
            },
    {
        let ghost pre = *self;
        proof {
            assert(pre.chunk_seq().last() == pre.chunks.current@);
        }
        if self.chunks.current.len() < self.chunks.cap {
            let h = self.chunks.total;
            self.chunks.current.push(value);
            self.chunks.total = h + 1;
            proof {
                let cs = pre.chunk_seq();
                assert(self.chunk_seq() =~= cs.update(cs.len() - 1, cs.last().push(value)));
                assert(cs.last().push(value) =~= cs.last() + seq![value]);
                lemma_flat_of_grow_last(cs, seq![value]);
                assert(self.flat() =~= pre.flat().push(value));
                lemma_extends_grow_last(cs, seq![value]);
                assert(self.chunk_seq() == cs.update(cs.len() - 1, cs.last() + seq![value]));
            }
            Ok(h)
        } else {
            Err(value)
        }
    }

    /// The current chunk is full: allocate through the batch path with a
    /// batch of one.
    fn alloc_slow_path(&mut self, value: T) -> (h: usize)
        requires
            old(self).wf(),
            old(self).flat().len() < usize::MAX,
            old(self).current_len() == old(self).capacity_spec(),
            2 * old(self).capacity_spec() <= usize::MAX,
        ensures
            final(self).wf(),
            h == old(self).flat().len(),
            final(self).flat() == old(self).flat().push(value),
            extends(old(self).chunk_seq(), final(self).chunk_seq()),
            final(self).chunk_seq() == old(self).chunk_seq().push(seq![value]),
            final(self).capacity_spec() == 2 * old(self).capacity_spec(),
    {
        let ghost pre = *self;
        let mut batch: Vec<T> = Vec::new();
        batch.push(value);
        proof {
            assert(batch@ =~= seq![value]);
            assert(next_pow2(1) == 1);
            assert(grown_capacity(pre.capacity_spec() as nat, 1) == 2 * pre.capacity_spec());
            assert(spliced_capacity(
                pre.capacity_spec() as nat,
                pre.current_len(),
                1,
                1,
            ) == 2 * pre.capacity_spec());
        }
        let h = self.alloc_extend_hinted(batch, 1);
        proof {
            assert(pre.flat() + seq![value] =~= pre.flat().push(value));
        }
        h
    }

    /// Allocate every element of `values`, in order, as one contiguous run;
    /// returns the handle of the first element, and the rest follow it. The
    /// batch's exact length serves as its size estimate, so a run that
    /// cannot fit is placed in a fresh chunk after a single growth step.
    pub fn alloc_extend(&mut self, values: Vec<T>) -> (h: usize)
        requires
            old(self).wf(),
            old(self).flat().len() + values@.len() <= usize::MAX,
            old(self).current_len() + values@.len() > old(self).capacity_spec() ==> (2 * old(self).capacity_spec() <= usize::MAX && next_pow2(values@.len() as nat) <= usize::MAX),
        ensures
            final(self).wf(),
            h == old(self).flat().len(),
            final(self).flat() == old(self).flat() + values@,
            extends(old(self).chunk_seq(), final(self).chunk_seq()),
            values@.is_suffix_of(final(self).chunk_seq().last()),
            old(self).current_len() + values@.len() <= old(self).capacity_spec() ==> (final(self).chunk_seq() == old(self).chunk_seq().update(
                old(self).chunk_seq().len() - 1,
                old(self).chunk_seq().last() + values@,
            ) && final(self).capacity_spec() == old(self).capacity_spec()),
            old(self).current_len() + values@.len() > old(self).capacity_spec() ==> (final(self).chunk_seq() == old(self).chunk_seq().push(values@) && final(self).capacity_spec() as nat == grown_capacity(
                old(self).capacity_spec() as nat,
                values@.len() as nat,
            )),
    {
        let ghost pre = *self;
        let hint = values.len();
        let h = self.alloc_extend_hinted(values, hint);
        proof {
            if pre.current_len() + hint > pre.capacity_spec() {
                lemma_next_pow2_ge(hint as nat);
                assert(spliced_capacity(
                    pre.capacity_spec() as nat,
                    pre.current_len(),
                    hint as nat,
                    hint as nat,
                ) == grown_capacity(pre.capacity_spec() as nat, hint as nat));
            }
        }
        h
    }

    /// Allocate every element of `values`, in order, as one contiguous run;
    /// returns the handle of the first element, and the rest follow it.
    ///
    /// `hint` plays the part of a producer's cheap lower-bound length
    /// estimate. The arena trusts it to decide up front whether the run fits
    /// into the current chunk. When the estimate proves too low the overrun
    /// is discovered mid-way: the arena then grows, and splices the elements
    /// it had already placed out of the chunk being retired and into the
    /// fresh chunk, so that the retired chunk keeps exactly its pre-call
    /// contents and the run never straddles a chunk boundary.
    #[verifier::loop_isolation(false)]
    pub fn alloc_extend_hinted(&mut self, values: Vec<T>, hint: usize) -> (h: usize)
        requires
            old(self).wf(),
            hint <= values@.len(),
            old(self).flat().len() + values@.len() <= usize::MAX,
            old(self).current_len() + values@.len() > old(self).capacity_spec() ==> (2 * old(self).capacity_spec() <= usize::MAX && next_pow2(values@.len() as nat) <= usize::MAX),
        ensures
            final(self).wf(),
            h == old(self).flat().len(),
            final(self).flat() == old(self).flat() + values@,
            extends(old(self).chunk_seq(), final(self).chunk_seq()),
            values@.is_suffix_of(final(self).chunk_seq().last()),
            old(self).current_len() + values@.len() <= old(self).capacity_spec() ==> (final(self).chunk_seq() == old(self).chunk_seq().update(
                old(self).chunk_seq().len() - 1,
                old(self).chunk_seq().last() + values@,
            ) && final(self).capacity_spec() == old(self).capacity_spec()),
            old(self).current_len() + values@.len() > old(self).capacity_spec() ==> (final(self).chunk_seq() == old(self).chunk_seq().push(values@) && final(self).capacity_spec() as nat == spliced_capacity(
                old(self).capacity_spec() as nat,
                old(self).current_len(),
                hint as nat,
                values@.len() as nat,
            )),
    {
        let ghost pre = *self;
        let ghost vals = values@;
        let k = values.len();
        let h = self.chunks.total;
        proof {
            pre.lemma_current_in_flat();
            assert(pre.chunk_seq().last() == pre.chunks.current@);
        }
        // move the batch onto a stack, front element on top, so elements can
        // be moved out one at a time
        let mut stack: Vec<T> = Vec::new();
        let mut values = values;
        proof {
            assert(vals.take(vals.len() as int) =~= vals);
        }
        while values.len() > 0
            invariant
                values@ == vals.take(values@.len() as int),
                stack@.len() + values@.len() == vals.len(),
                forall|j: int| 0 <= j < stack@.len() ==> stack@[j] == vals[vals.len() - 1 - j],
            decreases values@.len(),
        {
            let ghost vlen = values@.len() as int;
            let x = values.pop().unwrap();
            stack.push(x);
            proof {
                assert(values@ =~= vals.take(vlen - 1));
            }
        }
        if self.chunks.current.len() + hint > self.chunks.cap {
            // the estimate already shows the batch cannot fit: grow first,
            // then place the whole run in the fresh chunk
            proof {
                lemma_next_pow2_mono(hint as nat, k as nat);
            }
            self.chunks.reserve(hint);
            let ghost mid = self.chunks;
            while stack.len() > 0
                invariant
                    k == vals.len(),
                    self.chunks.rest@ == mid.rest@,
                    self.chunks.cap == mid.cap,
                    self.chunks.total == mid.total,
                    stack@.len() <= k,
                    self.chunks.current@ == vals.take(k - stack@.len()),
                    forall|j: int| 0 <= j < stack@.len() ==> stack@[j] == vals[vals.len() - 1 - j],
                decreases stack@.len(),
            {
                let ghost consumed = k - stack@.len() as int;
                let x = stack.pop().unwrap();
                self.chunks.current.push(x);
                proof {
                    assert(x == vals[consumed]);
                    assert(self.chunks.current@ =~= vals.take(consumed + 1));
                }
            }
            if self.chunks.current.len() > self.chunks.cap {
                self.chunks.cap = self.chunks.current.len();
            }
            self.chunks.total = h + k;
            proof {
                assert(self.chunks.current@ =~= vals);
                assert(views_of(mid.rest@) =~= pre.chunk_seq());
                assert(self.chunk_seq() =~= pre.chunk_seq().push(vals));
                lemma_flat_of_push(pre.chunk_seq(), vals);
                lemma_extends_push(pre.chunk_seq(), vals);
                assert(vals =~= self.chunk_seq().last().subrange(
                    self.chunk_seq().last().len() - vals.len() as int,
                    self.chunk_seq().last().len() as int,
                ));
                assert(pow2(self.chunks.rest@.len() as nat) <= mid.cap);
            }
        } else {
            // the estimate says the run fits: extend in place from the
            // current fill point
            let start = self.chunks.current.len();
            while stack.len() > 0 && self.chunks.current.len() < self.chunks.cap
                invariant
                    k == vals.len(),
                    self.chunks.rest@ == pre.chunks.rest@,
                    self.chunks.cap == pre.chunks.cap,
                    self.chunks.total == pre.chunks.total,
                    start == pre.chunks.current@.len(),
                    stack@.len() <= k,
                    self.chunks.current@ == pre.chunks.current@ + vals.take(k - stack@.len()),
                    self.chunks.current@.len() <= self.chunks.cap,
                    forall|j: int| 0 <= j < stack@.len() ==> stack@[j] == vals[vals.len() - 1 - j],
                decreases stack@.len(),
            {
                let ghost consumed = k - stack@.len() as int;
                let x = stack.pop().unwrap();
                self.chunks.current.push(x);
                proof {
                    assert(x == vals[consumed]);
                    assert(vals.take(consumed + 1) =~= vals.take(consumed).push(vals[consumed]));
                    assert(self.chunks.current@ =~= pre.chunks.current@ + vals.take(consumed + 1));
                }
            }
            if stack.len() > 0 {
                // the batch overran the chunk: splice. First take this
                // call's elements back out of the chunk about to retire
                let ghost placed_n = k - stack@.len() as int;
                let placed = self.chunks.current.len() - start;
                proof {
                    assert(self.chunks.current@.len() == self.chunks.cap);
                    assert(placed == placed_n);
                    assert(placed_n < k);
                    assert(pre.current_len() + k > pre.capacity_spec());
                }
                let mut moved: Vec<T> = Vec::new();
                while moved.len() < placed
                    invariant
                        k == vals.len(),
                        placed == placed_n,
                        0 <= placed_n <= k,
                        self.chunks.rest@ == pre.chunks.rest@,
                        self.chunks.cap == pre.chunks.cap,
                        self.chunks.total == pre.chunks.total,
                        moved@.len() <= placed,
                        self.chunks.current@ == pre.chunks.current@ + vals.take(
                            placed_n - moved@.len(),
                        ),
                        forall|j: int|
                            0 <= j < moved@.len() ==> moved@[j] == vals[placed_n - 1 - j],
                    decreases placed - moved@.len(),
                {
                    let ghost left = placed_n - moved@.len() as int;
                    let x = self.chunks.current.pop().unwrap();
                    moved.push(x);
                    proof {
                        assert(vals.take(left).last() == vals[left - 1]);
                        assert((pre.chunks.current@ + vals.take(left)).drop_last()
                            =~= pre.chunks.current@ + vals.take(left - 1));
                    }
                }
                // the chunk holds exactly its pre-call contents again;
                // retire it and open a chunk with room for what was placed
                // plus the element in hand
                proof {
                    assert(self.chunks.current@ =~= pre.chunks.current@);
                    lemma_next_pow2_mono((placed + 1) as nat, k as nat);
                }
                self.chunks.reserve(placed + 1);
                let ghost mid = self.chunks;
                // put the spliced elements back, in order
                while moved.len() > 0
                    invariant
                        k == vals.len(),
                        placed == placed_n,
                        0 <= placed_n <= k,
                        self.chunks.rest@ == mid.rest@,
                        self.chunks.cap == mid.cap,
                        self.chunks.total == mid.total,
                        moved@.len() <= placed,
                        self.chunks.current@ == vals.take(placed_n - moved@.len()),
                        forall|j: int|
                            0 <= j < moved@.len() ==> moved@[j] == vals[placed_n - 1 - j],
                    decreases moved@.len(),
                {
                    let ghost left = placed_n - moved@.len() as int;
                    let x = moved.pop().unwrap();
                    self.chunks.current.push(x);
                    proof {
                        assert(x == vals[left]);
                        assert(self.chunks.current@ =~= vals.take(left + 1));
                    }
                }
                // and the remainder of the batch after them
                while stack.len() > 0
                    invariant
                        k == vals.len(),
                        self.chunks.rest@ == mid.rest@,
                        self.chunks.cap == mid.cap,
                        self.chunks.total == mid.total,
                        stack@.len() <= k,
                        self.chunks.current@ == vals.take(k - stack@.len()),
                        forall|j: int|
                            0 <= j < stack@.len() ==> stack@[j] == vals[vals.len() - 1 - j],
                    decreases stack@.len(),
                {
                    let ghost consumed = k - stack@.len() as int;
                    let x = stack.pop().unwrap();
                    self.chunks.current.push(x);
                    proof {
                        assert(x == vals[consumed]);
                        assert(self.chunks.current@ =~= vals.take(consumed + 1));
                    }
                }
                if self.chunks.current.len() > self.chunks.cap {
                    self.chunks.cap = self.chunks.current.len();
                }
                self.chunks.total = h + k;
                proof {
                    assert(self.chunks.current@ =~= vals);
                    assert(views_of(mid.rest@) =~= pre.chunk_seq());
                    assert(self.chunk_seq() =~= pre.chunk_seq().push(vals));
                    lemma_flat_of_push(pre.chunk_seq(), vals);
                    lemma_extends_push(pre.chunk_seq(), vals);
                    assert(vals =~= self.chunk_seq().last().subrange(
                        self.chunk_seq().last().len() - vals.len() as int,
                        self.chunk_seq().last().len() as int,
                    ));
                    assert(pow2(self.chunks.rest@.len() as nat) <= mid.cap);
                    assert(pre.current_len() + vals.len() > pre.capacity_spec());
                }
            } else {
                // the whole batch fit in place
                self.chunks.total = h + k;
                proof {
                    let cs = pre.chunk_seq();
                    assert(self.chunks.current@ =~= pre.chunks.current@ + vals);
                    assert(self.chunk_seq() =~= cs.update(cs.len() - 1, cs.last() + vals));
                    lemma_flat_of_grow_last(cs, vals);
                    lemma_extends_grow_last(cs, vals);
                    assert(vals =~= self.chunk_seq().last().subrange(
                        self.chunk_seq().last().len() - vals.len() as int,
                        self.chunk_seq().last().len() as int,
                    ));
                }
            }
        }
        h
    }

    /// Read the element with handle `h`, its position in allocation order.
    /// The same handle reads the same value for the arena's whole life.
    pub fn get(&self, h: usize) -> (r: &T)
        requires
            self.wf(),
            (h as int) < self.flat().len(),
        ensures
            *r == self.flat()[h as int],
    {
        let ghost cs = self.chunk_seq();
        let mut j: usize = 0;
        let mut off: usize = h;
        proof {
            assert(cs.take(0).len() == 0);
            assert(flat_of(cs.take(0)) =~= Seq::<T>::empty());
        }
        while j < self.chunks.rest.len()
            invariant
                self.wf(),
                (h as int) < self.flat().len(),
                cs == self.chunk_seq(),
                j <= self.chunks.rest@.len(),
                flat_of(cs.take(j as int)).len() + off == h,
            decreases self.chunks.rest@.len() - j,
        {
            let c: &Vec<T> = &self.chunks.rest[j];
            proof {
                assert(cs[j as int] == c@);
            }
            if off < c.len() {
                proof {
                    lemma_flat_of_index(cs, j as int, off as int);
                }
                return &c[off];
            }
            off = off - c.len();
            j = j + 1;
            proof {
                lemma_flat_of_take_succ(cs, j as int - 1);
            }
        }
        proof {
            assert(cs[j as int] == self.chunks.current@);
            lemma_flat_of_split(cs, j as int);
            lemma_flat_of_first(cs.skip(j as int));
            assert(cs.skip(j as int).skip(1).len() == 0);
            assert(flat_of(cs.skip(j as int).skip(1)) =~= Seq::<T>::empty());
            assert(flat_of(cs.skip(j as int)) =~= self.chunks.current@);
            assert((off as int) < self.chunks.current@.len());
            lemma_flat_of_index(cs, j as int, off as int);
        }
        &self.chunks.current[off]
    }

    /// Consume the arena and return every element, in allocation order.
    pub fn into_vec(self) -> (r: Vec<T>)
        ensures
            r@ == self.flat(),
    {
        let ghost cs = self.chunk_seq();
        let Arena { chunks } = self;
        let ChunkList { current, rest, cap: _, total: _ } = chunks;
        let mut rest = rest;
        let mut current = current;
        let mut result: Vec<T> = Vec::new();
        proof {
            assert(cs.drop_last() =~= views_of(rest@));
        }
        while rest.len() > 0
            invariant
                result@ + flat_of(views_of(rest@)) == flat_of(cs.drop_last()),
            decreases rest@.len(),
        {
            let ghost prev = rest@;
            let mut c = rest.remove(0);
            result.append(&mut c);
            proof {
                lemma_flat_of_first(views_of(prev));
                assert(views_of(prev).first() == prev[0]@);
                assert(views_of(rest@) =~= views_of(prev).skip(1));
                assert(result@ + flat_of(views_of(rest@)) =~= flat_of(cs.drop_last()));
            }
        }
        let ghost cur_v = current@;
        proof {
            assert(cs.last() == cur_v);
        }
        result.append(&mut current);
        proof {
            assert(views_of(rest@).len() == 0);
            assert(flat_of(views_of(rest@)) =~= Seq::<T>::empty());
            assert(cs.len() >= 1);
            assert(flat_of(cs) == flat_of(cs.drop_last()) + cs.last());
            assert(result@ =~= flat_of(cs));
        }
        result
    }
}

} // verus!
