//! Cutting a lazy sequence into chunks: arrays of a fixed width. Where the
//! sequence ends inside a chunk, that last chunk is filled up with a filler
//! value, so no trailing item is dropped.

use vstd::prelude::*;
use vstd::std_specs::iter::IteratorSpec;

verus! {

/// How many chunks of width `n` a sequence of `len` items makes, a short
/// last chunk counted: `len / n`, rounded up.
pub open spec fn chunk_count(len: nat, n: nat) -> nat
    recommends
        n > 0,
{
    if len % n == 0 {
        len / n
    } else {
        len / n + 1
    }
}

/// Chunk `k` of `items` cut into chunks of width `n`: the items at
/// `k * n .. k * n + n`, with `filler` in each place past the end of
/// `items`.
pub open spec fn chunk<T>(items: Seq<T>, filler: T, n: nat, k: int) -> Seq<T> {
    Seq::new(
        n,
        |j: int|
            if k * n + j < items.len() {
                items[k * n + j]
            } else {
                filler
            },
    )
}

/// `items` followed by as many `filler` as bring its length to the next
/// multiple of `n`; `items` itself where its length is such a multiple.
pub open spec fn padded<T>(items: Seq<T>, filler: T, n: nat) -> Seq<T> {
    Seq::new(
        chunk_count(items.len(), n) * n,
        |p: int|
            if p < items.len() {
                items[p]
            } else {
                filler
            },
    )
}

/// A pull-based cursor over the chunks of width `N` of a source sequence.
/// It reads the source once, front to back, holds at most one unfinished
/// chunk, and pads at most once, at the end of the source.
pub struct ArrayChunksPad<I, const N: usize> where I: Iterator, I::Item: Copy {
    iter: Option<I>,
    filler: I::Item,
}

impl<I, const N: usize> ArrayChunksPad<I, N> where I: Iterator, I::Item: Copy {
    /// The source as far as it is still to be read; `None` once the end of
    /// the source has been seen.
    pub closed spec fn source(self) -> Option<I> {
        self.iter
    }

    /// The value that fills up a short last chunk.
    pub closed spec fn filler(self) -> I::Item {
        self.filler
    }

    /// A cursor at the start of `iter`. The width `N` is at least 1.
    pub fn new(iter: I, filler: I::Item) -> (r: Self)
        requires
            N > 0,
        ensures
            r.source() == Some(iter),
            r.filler() == filler,
    {
        ArrayChunksPad { iter: Some(iter), filler }
    }

    /// The next chunk, or `None` at the end.
    ///
    /// With `rest` for what the source still holds: an empty `rest` gives
    /// `None`; otherwise the result is the first chunk of `rest`, padded
    /// where `rest` is shorter than `N`. The source moves on by `N` items
    /// where it held that many, and is dropped where it did not, so that
    /// every later call gives `None`.
    ///
    /// What the source still holds is known for a source that follows the
    /// iterator laws of `vstd`: it hands out a finite sequence and `None`
    /// from there on. Whatever the source, a cursor that has answered
    /// `None` once answers `None` for ever.
    pub fn next(&mut self) -> (r: Option<[I::Item; N]>)
        requires
            N > 0,
        ensures
            final(self).filler() == old(self).filler(),
            old(self).source() is None ==> r is None,
            r is None ==> final(self).source() is None,
            old(self).source() matches Some(it) ==> it.obeys_prophetic_iter_laws() ==> ({
                let rest = it.remaining();
                &&& rest.len() == 0 ==> r is None
                &&& rest.len() > 0 ==> (r matches Some(found) && found@ == chunk(
                    rest,
                    old(self).filler(),
                    N as nat,
                    0,
                ))
                &&& rest.len() < N ==> final(self).source() is None
                &&& rest.len() >= N ==> (final(self).source() matches Some(left)
                    && left.obeys_prophetic_iter_laws() && left.remaining() == rest.skip(N as int)
                    && (it.decrease() is Some ==> left.decrease() is Some && it.decrease()->0
                    > left.decrease()->0))
            }),
    {
        let mut result: [I::Item; N] = [self.filler; N];
        let mut taken: usize = 0;
        match self.iter.take() {
            None => None,
            Some(mut iter) => {
                let ghost start = iter;
                while taken < N
                    invariant_except_break
                        taken == 0 ==> iter == start,
                        start.obeys_prophetic_iter_laws() && start.decrease() is Some && taken > 0
                            ==> start.decrease()->0 > iter.decrease()->0,
                    invariant
                        N > 0,
                        taken <= N,
                        self.iter is None,
                        self.filler == old(self).filler,
                        iter.obeys_prophetic_iter_laws() == start.obeys_prophetic_iter_laws(),
                        forall|j: int| taken <= j < N ==> result@[j] == self.filler,
                        start.obeys_prophetic_iter_laws() ==> {
                            &&& taken <= start.remaining().len()
                            &&& iter.remaining() == start.remaining().skip(taken as int)
                            &&& forall|j: int|
                                0 <= j < taken ==> result@[j] == start.remaining()[j]
                            &&& start.decrease() is Some ==> iter.decrease() is Some
                        },
                    ensures
                        start.obeys_prophetic_iter_laws() ==> taken == N || taken
                            == start.remaining().len(),
                        start.obeys_prophetic_iter_laws() && start.decrease() is Some && taken == N
                            ==> start.decrease()->0 > iter.decrease()->0,
                    decreases N - taken,
                {
                    match iter.next() {
                        Some(item) => {
                            result[taken] = item;
                            taken = taken + 1;
                        },
                        None => {
                            break ;
                        },
                    }
                }
                proof {
                    if start.obeys_prophetic_iter_laws() && taken > 0 {
                        assert(result@ =~= chunk(start.remaining(), self.filler, N as nat, 0));
                    }
                }
                if taken == N {
                    self.iter = Some(iter);
                    Some(result)
                } else if taken > 0 {
                    Some(result)
                } else {
                    None
                }
            },
        }
    }
}

impl<I, const N: usize> ArrayChunksPad<I, N> where I: Iterator, I::Item: Copy {
    /// All chunks that are still to come, in order: the chunks of what the
    /// source still holds.
    pub fn collect(self) -> (v: Vec<[I::Item; N]>)
        requires
            N > 0,
            self.source() matches Some(it) ==> it.obeys_prophetic_iter_laws() && it.decrease() is Some,
        ensures
            self.source() is None ==> v@.len() == 0,
            self.source() matches Some(it) ==> {
                &&& v@.len() == chunk_count(it.remaining().len(), N as nat)
                &&& forall|k: int|
                    0 <= k < v@.len() ==> (#[trigger] v@[k])@ == chunk(
                        it.remaining(),
                        self.filler(),
                        N as nat,
                        k,
                    )
            },
    {
        let ghost all: Seq<I::Item> = if self.source() is Some {
            self.source()->0.remaining()
        } else {
            Seq::empty()
        };
        let ghost filler = self.filler();
        let ghost n: nat = N as nat;
        let mut cursor = self;
        let mut out: Vec<[I::Item; N]> = Vec::new();
        assert(out@.len() * n == 0);
        assert(all.skip(0) =~= all);
        loop
            invariant
                N > 0,
                n == N,
                cursor.filler() == filler,
                self.source() is None ==> cursor.source() is None && out@.len() == 0,
                forall|k: int| 0 <= k < out@.len() ==> (#[trigger] out@[k])@ == chunk(all, filler, n, k),
                self.source() is Some ==> (cursor.source() matches Some(it) ==> {
                    &&& it.obeys_prophetic_iter_laws()
                    &&& it.decrease() is Some
                    &&& out@.len() * n <= all.len()
                    &&& it.remaining() == all.skip((out@.len() * n) as int)
                }),
                self.source() is Some && cursor.source() is None ==> out@.len() == chunk_count(
                    all.len(),
                    n,
                ),
            ensures
                self.source() is None ==> out@.len() == 0,
                self.source() is Some ==> out@.len() == chunk_count(all.len(), n),
                forall|k: int| 0 <= k < out@.len() ==> (#[trigger] out@[k])@ == chunk(all, filler, n, k),
            decreases
                (if cursor.source() is Some {
                    cursor.source()->0.decrease()->0 + 1
                } else {
                    0
                }),
        {
            let ghost before = cursor;
            let ghost k: int = out@.len() as int;
            match cursor.next() {
                Some(found) => {
                    assert({
                        &&& found@ == chunk(all, filler, n, k)
                        &&& (k + 1) * n == k * n + n
                        &&& all.len() >= k * n + n ==> all.skip(k * n).skip(n as int) == all.skip(
                            (k + 1) * n,
                        )
                        &&& all.len() < k * n + n ==> chunk_count(all.len(), n) == k + 1
                    }) by {
                        lemma_chunk_of_rest(all, filler, n, k);
                    }
                    out.push(found);
                },
                None => {
                    assert(self.source() is Some ==> out@.len() == chunk_count(all.len(), n)) by {
                        if self.source() is Some && before.source() is Some {
                            lemma_chunk_count(all.len(), n, k, 0);
                        }
                    }
                    break ;
                },
            }
        }
        out
    }
}

/// What is left after `k` whole chunks starts with chunk `k` of the whole
/// sequence, and taking that chunk leaves what is left after `k + 1`
/// chunks, or nothing where the chunk was the last one.
proof fn lemma_chunk_of_rest<T>(items: Seq<T>, filler: T, n: nat, k: int)
    requires
        n > 0,
        0 <= k,
        k * n < items.len(),
    ensures
        chunk(items.skip(k * n), filler, n, 0) == chunk(items, filler, n, k),
        (k + 1) * n == k * n + n,
        items.len() >= k * n + n ==> items.skip(k * n).skip(n as int) == items.skip((k + 1) * n),
        items.len() < k * n + n ==> chunk_count(items.len(), n) == k + 1,
{
    assert((k + 1) * n == k * n + n) by (nonlinear_arith);
    assert(k * n >= 0) by (nonlinear_arith)
        requires
            k >= 0,
            n > 0,
    ;
    assert(chunk(items.skip(k * n), filler, n, 0) =~= chunk(items, filler, n, k));
    if items.len() >= k * n + n {
        assert(items.skip(k * n).skip(n as int) =~= items.skip((k + 1) * n));
    } else {
        lemma_chunk_count(items.len(), n, k, (items.len() - k * n) as nat);
    }
}

/// A length of `k` whole chunks of width `n` and `r` more items, `r` below
/// `n`, makes `k` chunks where `r` is 0, and `k + 1` otherwise.
pub proof fn lemma_chunk_count(len: nat, n: nat, k: int, r: nat)
    requires
        n > 0,
        k >= 0,
        r < n,
        len == k * n + r,
    ensures
        chunk_count(len, n) == if r == 0 {
            k
        } else {
            k + 1
        },
{
    vstd::arithmetic::div_mod::lemma_fundamental_div_mod_converse(len as int, n as int, k, r as int);
}

/// Gives every iterator over copyable items the method `array_chunks_pad`.
pub trait ArrayChunksPadExtension: Iterator where Self: Sized, Self::Item: Copy {
    /// A cursor over the chunks of width `N` of this iterator's items, the
    /// last chunk filled up with `filler`.
    fn array_chunks_pad<const N: usize>(self, filler: Self::Item) -> (r: ArrayChunksPad<Self, N>)
        requires
            N > 0,
        ensures
            r.source() == Some(self),
            r.filler() == filler,
    ;
}

impl<I> ArrayChunksPadExtension for I where I: Iterator, I::Item: Copy {
    fn array_chunks_pad<const N: usize>(self, filler: Self::Item) -> (r: ArrayChunksPad<Self, N>) {
        ArrayChunksPad::new(self, filler)
    }
}

/// The chunks tile the padded sequence: chunk `k` is the stretch of
/// `padded(items, filler, n)` that starts at `k * n`, and there are as many
/// chunks as that sequence holds stretches of `n` items.
pub proof fn lemma_chunks_tile_padded<T>(items: Seq<T>, filler: T, n: nat, k: int)
    requires
        n > 0,
        0 <= k < chunk_count(items.len(), n),
    ensures
        padded(items, filler, n).len() == chunk_count(items.len(), n) * n,
        k * n + n <= padded(items, filler, n).len(),
        chunk(items, filler, n, k) == padded(items, filler, n).subrange(k * n, k * n + n),
{
    let count = chunk_count(items.len(), n) as int;
    assert(k * n + n <= count * n) by (nonlinear_arith)
        requires
            k + 1 <= count,
            n > 0,
    ;
    assert(k * n >= 0) by (nonlinear_arith)
        requires
            k >= 0,
            n > 0,
    ;
    assert(chunk(items, filler, n, k) =~= padded(items, filler, n).subrange(k * n, k * n + n));
}

/// Padding comes at most once and only at the end: the sequence with its
/// padding is never shorter than the sequence and less than `n` longer, a
/// sequence whose length is a multiple of `n` gets none, and every chunk
/// that ends inside the sequence holds items only. No items make no chunk.
pub proof fn lemma_padding_is_last<T>(items: Seq<T>, filler: T, n: nat, k: int)
    requires
        n > 0,
        0 <= k,
    ensures
        items.len() <= chunk_count(items.len(), n) * n < items.len() + n,
        items.len() % n == 0 ==> padded(items, filler, n) == items,
        items.len() == 0 ==> chunk_count(items.len(), n) == 0,
        k * n + n <= items.len() ==> k < chunk_count(items.len(), n) && chunk(items, filler, n, k)
            == items.subrange(k * n, k * n + n),
{
    let len = items.len() as int;
    let count = chunk_count(items.len(), n) as int;
    vstd::arithmetic::div_mod::lemma_fundamental_div_mod(len, n as int);
    assert(0 <= len % (n as int) < n) by (nonlinear_arith)
        requires
            n > 0,
    ;
    assert((n as int) * (len / (n as int)) == (len / (n as int)) * n) by (nonlinear_arith);
    assert((len / (n as int) + 1) * n == (len / (n as int)) * n + n) by (nonlinear_arith);
    if len % (n as int) == 0 {
        assert(padded(items, filler, n) =~= items);
    }
    if k * n + n <= len {
        assert(k < count) by (nonlinear_arith)
            requires
                k * n + n <= len,
                len <= count * n,
                n > 0,
        ;
        assert(k * n >= 0) by (nonlinear_arith)
            requires
                k >= 0,
                n > 0,
        ;
        assert(chunk(items, filler, n, k) =~= items.subrange(k * n, k * n + n));
    }
}

} // verus!
