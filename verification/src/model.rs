//! The mathematical model of chunked storage: the flattened contents of an
//! ordered sequence of chunks, the way that sequence may evolve across an
//! allocation, and the power-of-two arithmetic behind the growth policy.

use vstd::prelude::*;

verus! {

/// The elements held by a sequence of chunks, concatenated in order:
/// retired chunks first (oldest first), the current chunk last. This is the
/// allocation-order contents of an arena.
pub open spec fn flat_of<T>(chunks: Seq<Seq<T>>) -> Seq<T>
    decreases chunks.len(),
{
    if chunks.len() == 0 {
        Seq::empty()
    } else {
        flat_of(chunks.drop_last()) + chunks.last()
    }
}

/// The mathematical contents of a vector of chunk buffers.
pub open spec fn views_of<T>(bufs: Seq<Vec<T>>) -> Seq<Seq<T>> {
    Seq::new(bufs.len(), |j: int| bufs[j]@)
}

/// How the chunk structure may evolve across allocation calls: chunks that
/// were already retired are frozen, the chunk that was current either grows
/// in place or is retired with the contents it had, and new chunks only ever
/// appear after it.
pub open spec fn extends<T>(pre: Seq<Seq<T>>, post: Seq<Seq<T>>) -> bool {
    &&& 1 <= pre.len() <= post.len()
    &&& forall|j: int| 0 <= j < pre.len() - 1 ==> post[j] == pre[j]
    &&& pre.last().is_prefix_of(post[pre.len() - 1])
}

pub proof fn lemma_flat_of_push<T>(chunks: Seq<Seq<T>>, c: Seq<T>)
    ensures
        flat_of(chunks.push(c)) == flat_of(chunks) + c,
{
    assert(chunks.push(c).drop_last() =~= chunks);
    assert(chunks.push(c).last() == c);
}

/// Decomposing a non-empty chunk sequence from the front.
pub proof fn lemma_flat_of_first<T>(chunks: Seq<Seq<T>>)
    requires
        chunks.len() > 0,
    ensures
        flat_of(chunks) == chunks.first() + flat_of(chunks.skip(1)),
    decreases chunks.len(),
{
    if chunks.len() == 1 {
        assert(chunks.skip(1).len() == 0);
        assert(chunks.drop_last().len() == 0);
        assert(flat_of(chunks.skip(1)) =~= Seq::<T>::empty());
        assert(flat_of(chunks.drop_last()) =~= Seq::<T>::empty());
        assert(flat_of(chunks) =~= chunks.first() + flat_of(chunks.skip(1)));
    } else {
        lemma_flat_of_first(chunks.drop_last());
        assert(chunks.skip(1).drop_last() =~= chunks.drop_last().skip(1));
        assert(chunks.skip(1).last() == chunks.last());
        assert(chunks.skip(1).len() > 0);
        assert(flat_of(chunks.skip(1)) == flat_of(chunks.skip(1).drop_last()) + chunks.skip(1).last());
        assert(chunks.drop_last().first() == chunks.first());
        assert(flat_of(chunks) =~= chunks.first() + flat_of(chunks.skip(1)));
    }
}

/// Splitting the flattened contents at a chunk boundary.
pub proof fn lemma_flat_of_split<T>(chunks: Seq<Seq<T>>, j: int)
    requires
        0 <= j <= chunks.len(),
    ensures
        flat_of(chunks) == flat_of(chunks.take(j)) + flat_of(chunks.skip(j)),
    decreases chunks.len(),
{
    if j == chunks.len() {
        assert(chunks.take(j) =~= chunks);
        assert(chunks.skip(j).len() == 0);
        assert(flat_of(chunks) =~= flat_of(chunks.take(j)) + flat_of(chunks.skip(j)));
    } else {
        let dl = chunks.drop_last();
        lemma_flat_of_split(dl, j);
        assert(dl.take(j) =~= chunks.take(j));
        assert(chunks.skip(j).drop_last() =~= dl.skip(j));
        assert(chunks.skip(j).len() > 0);
        assert(chunks.skip(j).last() == chunks.last());
        assert(flat_of(chunks.skip(j)) == flat_of(dl.skip(j)) + chunks.last());
        assert(flat_of(chunks) =~= flat_of(chunks.take(j)) + flat_of(chunks.skip(j)));
    }
}

/// One more chunk taken in front adds exactly that chunk's elements.
pub proof fn lemma_flat_of_take_succ<T>(chunks: Seq<Seq<T>>, j: int)
    requires
        0 <= j < chunks.len(),
    ensures
        flat_of(chunks.take(j + 1)) == flat_of(chunks.take(j)) + chunks[j],
{
    assert(chunks.take(j + 1).drop_last() =~= chunks.take(j));
    assert(chunks.take(j + 1).last() == chunks[j]);
}

/// An element's position in the flattened contents is the total length of
/// the chunks before its chunk, plus its offset within its chunk.
pub proof fn lemma_flat_of_index<T>(chunks: Seq<Seq<T>>, j: int, k: int)
    requires
        0 <= j < chunks.len(),
        0 <= k < chunks[j].len(),
    ensures
        flat_of(chunks.take(j)).len() + k < flat_of(chunks).len(),
        flat_of(chunks)[flat_of(chunks.take(j)).len() + k] == chunks[j][k],
{
    lemma_flat_of_split(chunks, j + 1);
    lemma_flat_of_take_succ(chunks, j);
}

/// Growing the last chunk in place appends its new tail to the flattened
/// contents.
pub proof fn lemma_flat_of_grow_last<T>(chunks: Seq<Seq<T>>, tail: Seq<T>)
    requires
        chunks.len() > 0,
    ensures
        flat_of(chunks.update(chunks.len() - 1, chunks.last() + tail)) == flat_of(chunks) + tail,
{
    let grown = chunks.update(chunks.len() - 1, chunks.last() + tail);
    assert(grown.drop_last() =~= chunks.drop_last());
    assert(grown.last() == chunks.last() + tail);
    assert(flat_of(grown.drop_last()) + (chunks.last() + tail) =~= (flat_of(chunks.drop_last())
        + chunks.last()) + tail);
}

/// When the chunk structure evolves as `extends` allows, the flattened
/// contents only gain elements at the end, and the flattened length of any
/// already-reached chunk boundary does not move.
pub proof fn lemma_extends_flat_prefix<T>(pre: Seq<Seq<T>>, post: Seq<Seq<T>>)
    requires
        extends(pre, post),
    ensures
        flat_of(pre).is_prefix_of(flat_of(post)),
        forall|j: int| 0 <= j < pre.len() ==> flat_of(pre.take(j)) == flat_of(#[trigger] post.take(j)),
{
    let l = pre.len() as int;
    assert forall|j: int| 0 <= j < pre.len() implies flat_of(pre.take(j)) == flat_of(
        #[trigger] post.take(j),
    ) by {
        assert(pre.take(j) =~= post.take(j));
    }
    lemma_flat_of_split(pre, l - 1);
    lemma_flat_of_split(post, l - 1);
    assert(pre.take(l - 1) =~= post.take(l - 1));
    // the part of `pre` past the shared boundary is exactly its last chunk
    lemma_flat_of_first(pre.skip(l - 1));
    assert(pre.skip(l - 1).skip(1).len() == 0);
    assert(flat_of(pre.skip(l - 1)) =~= pre.last());
    // the part of `post` past the boundary starts with the chunk that
    // extends `pre`'s last chunk
    lemma_flat_of_first(post.skip(l - 1));
    assert(post.skip(l - 1).first() == post[l - 1]);
    let a = flat_of(pre.take(l - 1));
    let p = pre.last();
    let q = post[l - 1];
    let r = flat_of(post.skip(l - 1).skip(1));
    assert(flat_of(pre) == a + p);
    assert(flat_of(post) == a + (q + r));
    assert(flat_of(pre).len() <= flat_of(post).len());
    assert(flat_of(pre) =~= flat_of(post).subrange(0, flat_of(pre).len() as int));
}

/// Legal evolutions compose: what holds of each single allocation call holds
/// across any sequence of them.
pub proof fn lemma_extends_trans<T>(a: Seq<Seq<T>>, b: Seq<Seq<T>>, c: Seq<Seq<T>>)
    requires
        extends(a, b),
        extends(b, c),
    ensures
        extends(a, c),
{
    let l = a.len() as int;
    if l - 1 < b.len() - 1 {
        assert(c[l - 1] == b[l - 1]);
    } else {
        assert(l - 1 == b.len() - 1);
        assert(a.last().is_prefix_of(b.last()));
        assert(b.last().is_prefix_of(c[l - 1]));
        assert(a.last() =~= c[l - 1].subrange(0, a.last().len() as int));
    }
    assert forall|j: int| 0 <= j < l - 1 implies c[j] == a[j] by {
        assert(b[j] == a[j]);
        assert(c[j] == b[j]);
    }
}

/// Retiring the current chunk as it stands and opening a new one is a legal
/// evolution of the chunk structure.
pub proof fn lemma_extends_push<T>(chunks: Seq<Seq<T>>, c: Seq<T>)
    requires
        chunks.len() >= 1,
    ensures
        extends(chunks, chunks.push(c)),
{
    let post = chunks.push(c);
    assert(chunks.last() =~= post[chunks.len() - 1].subrange(0, chunks.last().len() as int));
}

/// Growing the current chunk in place is a legal evolution of the chunk
/// structure.
pub proof fn lemma_extends_grow_last<T>(chunks: Seq<Seq<T>>, tail: Seq<T>)
    requires
        chunks.len() >= 1,
    ensures
        extends(chunks, chunks.update(chunks.len() - 1, chunks.last() + tail)),
{
    let post = chunks.update(chunks.len() - 1, chunks.last() + tail);
    assert(chunks.last() =~= post[chunks.len() - 1].subrange(0, chunks.last().len() as int));
}

/// Two to the given power.
pub open spec fn pow2(e: nat) -> nat
    decreases e,
{
    if e == 0 {
        1
    } else {
        2 * pow2((e - 1) as nat)
    }
}

pub proof fn lemma_pow2_ge(e: nat)
    ensures
        pow2(e) >= e + 1,
    decreases e,
{
    if e > 0 {
        lemma_pow2_ge((e - 1) as nat);
    }
}

/// Whether a number is a power of two.
pub open spec fn is_pow2(p: nat) -> bool
    decreases p,
{
    if p == 0 {
        false
    } else if p == 1 {
        true
    } else {
        p % 2 == 0 && is_pow2(p / 2)
    }
}

/// The smallest power of two that is at least `k` (one, for `k` of zero or
/// one): the floor that a freshly grown chunk's capacity is rounded up to so
/// that a batch of `k` elements fits without an immediate second growth.
pub open spec fn next_pow2(k: nat) -> nat
    decreases k,
{
    if k <= 1 {
        1
    } else {
        2 * next_pow2(((k + 1) / 2) as nat)
    }
}

/// The capacity of the chunk that replaces a full one: the old capacity
/// doubled, or the power-of-two floor for the requested room, whichever is
/// larger.
pub open spec fn grown_capacity(cap: nat, additional: nat) -> nat {
    if 2 * cap >= next_pow2(additional) {
        2 * cap
    } else {
        next_pow2(additional)
    }
}

/// The capacity of the current chunk after a batch of `k` elements overran a
/// chunk of capacity `cap` that held `cur_len` elements, with `hint` the
/// batch's lower-bound length estimate. When the hint already shows the
/// batch cannot fit, growth is requested for `hint` elements up front;
/// otherwise the overrun is only discovered after the `cap - cur_len` free
/// slots have been filled, and growth is requested for those elements plus
/// the one in hand. Either way the chunk ends up holding all `k` elements,
/// so its capacity is at least `k`.
pub open spec fn spliced_capacity(cap: nat, cur_len: nat, hint: nat, k: nat) -> nat {
    let m = if cur_len + hint > cap {
        hint
    } else {
        (cap - cur_len + 1) as nat
    };
    let g = grown_capacity(cap, m);
    if g >= k {
        g
    } else {
        k
    }
}

pub proof fn lemma_is_pow2_pos(p: nat)
    requires
        is_pow2(p),
    ensures
        p >= 1,
{
}

pub proof fn lemma_next_pow2_ge(k: nat)
    ensures
        next_pow2(k) >= k,
        next_pow2(k) >= 1,
    decreases k,
{
    if k > 1 {
        lemma_next_pow2_ge(((k + 1) / 2) as nat);
    }
}

pub proof fn lemma_next_pow2_is_pow2(k: nat)
    ensures
        is_pow2(next_pow2(k)),
    decreases k,
{
    if k > 1 {
        let c = ((k + 1) / 2) as nat;
        lemma_next_pow2_is_pow2(c);
        lemma_next_pow2_ge(c);
        let p = next_pow2(c);
        assert((2 * p) % 2 == 0);
        assert((2 * p) / 2 == p);
    }
}

/// Distinct powers of two are at least a factor of two apart.
pub proof fn lemma_pow2_gap(p: nat, q: nat)
    requires
        is_pow2(p),
        is_pow2(q),
        p < q,
    ensures
        2 * p <= q,
    decreases p,
{
    if p == 1 {
        assert(q % 2 == 0);
    } else {
        assert(p % 2 == 0);
        assert(q != 1);
        assert(q % 2 == 0);
        lemma_pow2_gap(p / 2, q / 2);
    }
}

/// `next_pow2(k)` is the least power of two at or above `k`.
pub proof fn lemma_next_pow2_min(k: nat, q: nat)
    requires
        is_pow2(q),
        q >= k,
    ensures
        next_pow2(k) <= q,
    decreases k,
{
    if k <= 1 {
        lemma_is_pow2_pos(q);
    } else {
        let c = ((k + 1) / 2) as nat;
        assert(q >= 2);
        assert(q % 2 == 0);
        assert(is_pow2(q / 2));
        assert(q / 2 >= c);
        lemma_next_pow2_min(c, (q / 2) as nat);
    }
}

pub proof fn lemma_next_pow2_mono(k1: nat, k2: nat)
    requires
        k1 <= k2,
    ensures
        next_pow2(k1) <= next_pow2(k2),
{
    lemma_next_pow2_is_pow2(k2);
    lemma_next_pow2_ge(k2);
    lemma_next_pow2_min(k1, next_pow2(k2));
}

/// The smallest power of two at or above `k`, computed by doubling.
pub fn next_power_of_two(k: usize) -> (p: usize)
    requires
        next_pow2(k as nat) <= usize::MAX,
    ensures
        p as nat == next_pow2(k as nat),
{
    proof {
        lemma_next_pow2_ge(k as nat);
        lemma_next_pow2_is_pow2(k as nat);
    }
    let mut p: usize = 1;
    while p < k
        invariant
            1 <= p,
            is_pow2(p as nat),
            p as nat <= next_pow2(k as nat),
            next_pow2(k as nat) <= usize::MAX,
            is_pow2(next_pow2(k as nat)),
            next_pow2(k as nat) >= k,
        decreases 2 * k - p,
    {
        proof {
            lemma_pow2_gap(p as nat, next_pow2(k as nat));
            assert((2 * p) % 2 == 0);
            assert((2 * p) / 2 == p as int);
        }
        p = p * 2;
    }
    proof {
        lemma_next_pow2_min(k as nat, p as nat);
    }
    p
}

} // verus!
