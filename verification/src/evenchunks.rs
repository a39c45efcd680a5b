//! Cutting a slice into "evenly-sized" contiguous chunks. The first
//! chunks will in general have one more element than the later chunks.

use vstd::prelude::*;
use vstd::slice::slice_subrange;

verus! {

/// Where chunk `i` begins when `len` elements are cut into `n` chunks.
pub open spec fn chunk_start(len: nat, n: nat, i: nat) -> nat {
    i * (len / n) + if i < len % n {
        i
    } else {
        len % n
    }
}

/// How many elements chunk `i` holds when `len` elements are cut into `n`
/// chunks: the first `len % n` chunks hold one more than the others.
pub open spec fn chunk_len(len: nat, n: nat, i: nat) -> nat {
    len / n + if i < len % n {
        1nat
    } else {
        0nat
    }
}

/// Chunk `i` of `s` cut into `n` chunks.
pub open spec fn chunk<T>(s: Seq<T>, n: nat, i: nat) -> Seq<T> {
    s.subrange(chunk_start(s.len(), n, i) as int, chunk_start(s.len(), n, i + 1) as int)
}

/// All `n` chunks of `s`, in order.
pub open spec fn even_split<T>(s: Seq<T>, n: nat) -> Seq<Seq<T>> {
    Seq::new(n, |i: int| chunk(s, n, i as nat))
}

/// The lengths of the chunks, added up.
pub open spec fn total_len<T>(chunks: Seq<Seq<T>>) -> nat
    decreases chunks.len(),
{
    if chunks.len() == 0 {
        0
    } else {
        total_len(chunks.drop_last()) + chunks.last().len()
    }
}

/// `len` divided by `n`, rounded up.
pub open spec fn ceil_div(len: nat, n: nat) -> nat {
    ((len + n - 1) / n as int) as nat
}

/// Even chunks iterator.
pub struct EvenChunks<'a, T> {
    blocksize: usize,
    rem: usize,
    rest: &'a [T],
    source: Ghost<Seq<T>>,
    count: Ghost<nat>,
    done: Ghost<nat>,
}

impl<'a, T> EvenChunks<'a, T> {
    /// The fields agree with the cut they walk through.
    pub closed spec fn wf(&self) -> bool {
        let len = self.source@.len();
        let n = self.count@;
        let i = self.done@;
        &&& 1 <= n <= len
        &&& i <= n
        &&& self.rest@ == self.source@.subrange(chunk_start(len, n, i) as int, len as int)
        &&& self.rem == if i < len % n {
            len % n - i
        } else {
            0
        }
        &&& self.blocksize == chunk_len(len, n, i)
    }

    /// The chunks still to come, next one first.
    pub closed spec fn pending(&self) -> Seq<Seq<T>> {
        even_split(self.source@, self.count@).skip(self.done@ as int)
    }

    /// Produce an iterator that "evenly" cuts the slice into *n* chunks.
    pub fn nchunks(slice: &'a [T], nchunks: usize) -> (chunks: Self)
        requires
            1 <= nchunks <= slice@.len(),
        ensures
            chunks.wf(),
            chunks.pending() == even_split(slice@, nchunks as nat),
    {
        let nslice = slice.len();
        let mut blocksize = nslice / nchunks;

        // Figure out how many longer chunks
        // to put out.
        proof {
            vstd::arithmetic::div_mod::lemma_fundamental_div_mod(nslice as int, nchunks as int);
            assert(blocksize * nchunks == nchunks * blocksize) by (nonlinear_arith);
            assert(blocksize <= blocksize * nchunks <= nslice) by (nonlinear_arith)
                requires
                    1 <= nchunks,
                    nchunks * blocksize <= nslice,
            ;
            assert(1 <= blocksize) by (nonlinear_arith)
                requires
                    nchunks * blocksize + (nslice as int) % (nchunks as int) == nslice,
                    (nslice as int) % (nchunks as int) < nchunks,
                    1 <= nchunks <= nslice,
            ;
        }
        let rem = nslice - blocksize * nchunks;
        if rem > 0 {
            blocksize += 1;
        }
        proof {
            assert(slice@.subrange(0, nslice as int) == slice@);
            assert(0 * (nslice as nat / nchunks as nat) == 0) by (nonlinear_arith);
        }

        EvenChunks {
            blocksize,
            rem,
            rest: slice,
            source: Ghost(slice@),
            count: Ghost(nchunks as nat),
            done: Ghost(0),
        }
    }

    /// The next chunk, or `None` once every chunk has been handed out.
    pub fn next(&mut self) -> (item: Option<&'a [T]>)
        requires
            old(self).wf(),
        ensures
            final(self).wf(),
            match item {
                Some(c) => {
                    &&& old(self).pending().len() > 0
                    &&& c@ == old(self).pending()[0]
                    &&& final(self).pending() == old(self).pending().drop_first()
                },
                None => old(self).pending().len() == 0 && final(self).pending() == old(
                    self,
                ).pending(),
            },
    {
        let ghost len = self.source@.len();
        let ghost n = self.count@;
        let ghost i = self.done@;
        proof {
            if i < n {
                lemma_chunk_bounds(len, n, i);
                lemma_chunk_sizes(len, n, i);
            } else {
                lemma_chunk_bounds(len, n, 0);
            }
        }
        if self.rest.is_empty() {
            return None;
        }
        let blocksize = if self.rem == 1 {
            self.blocksize -= 1;
            self.blocksize + 1
        } else {
            self.blocksize
        };
        if self.rem > 0 {
            self.rem -= 1;
        }
        let result = slice_subrange(self.rest, 0, blocksize);
        self.rest = slice_subrange(self.rest, blocksize, self.rest.len());
        proof {
            self.done = Ghost((i + 1) as nat);
            assert(self.rest@ == self.source@.subrange(
                chunk_start(len, n, i + 1) as int,
                len as int,
            ));
        }
        Some(result)
    }

    /// Every chunk still to come, in order.
    pub fn collect(self) -> (all: Vec<&'a [T]>)
        requires
            self.wf(),
        ensures
            all@.len() == self.pending().len(),
            forall|i: int| 0 <= i < all@.len() ==> (#[trigger] all@[i])@ == self.pending()[i],
    {
        let mut chunks = self;
        let mut all: Vec<&'a [T]> = Vec::new();
        loop
            invariant
                chunks.wf(),
                all@.len() + chunks.pending().len() == self.pending().len(),
                chunks.pending() == self.pending().skip(all@.len() as int),
                forall|i: int| 0 <= i < all@.len() ==> (#[trigger] all@[i])@ == self.pending()[i],
            ensures
                all@.len() == self.pending().len(),
            decreases chunks.pending().len(),
        {
            match chunks.next() {
                Some(c) => {
                    proof {
                        assert(self.pending().skip(all@.len() as int).drop_first()
                            == self.pending().skip(all@.len() as int + 1));
                    }
                    all.push(c);
                },
                None => {
                    break ;
                },
            }
        }
        all
    }
}

/// Each chunk begins where the one before it ends, and the last one ends
/// with the sequence.
pub proof fn lemma_chunk_bounds(len: nat, n: nat, i: nat)
    requires
        1 <= n,
        i < n,
    ensures
        chunk_start(len, n, 0) == 0,
        chunk_start(len, n, n) == len,
        chunk_start(len, n, i + 1) == chunk_start(len, n, i) + chunk_len(len, n, i),
        chunk_start(len, n, i + 1) <= len,
{
    let q = len / n;
    let r = len % n;
    assert(len == n * q + r) by {
        vstd::arithmetic::div_mod::lemma_fundamental_div_mod(len as int, n as int);
    }
    assert((i + 1) * q == i * q + q) by (nonlinear_arith);
    assert((i + 1) * q <= n * q) by (nonlinear_arith)
        requires
            i + 1 <= n,
            0 <= q,
    ;
}

/// The chunks are none empty and differ in size by one at most: the first
/// `len % n` hold one element more than the others. Where `n` does not
/// divide `len`, the chunks of size `len / n` rounded up are exactly
/// those first `len % n`.
pub proof fn lemma_chunk_sizes(len: nat, n: nat, i: nat)
    requires
        1 <= n <= len,
        i < n,
    ensures
        chunk_len(len, n, i) >= 1,
        i < len % n ==> chunk_len(len, n, i) == len / n + 1,
        i >= len % n ==> chunk_len(len, n, i) == len / n,
        len % n != 0 ==> (chunk_len(len, n, i) == ceil_div(len, n) <==> i < len % n),
        len % n == 0 ==> chunk_len(len, n, i) == ceil_div(len, n),
{
    let q = (len / n) as int;
    let r = (len % n) as int;
    vstd::arithmetic::div_mod::lemma_fundamental_div_mod(len as int, n as int);
    if q == 0 {
        assert(n * q == 0) by (nonlinear_arith)
            requires
                q == 0,
        ;
    }
    if r != 0 {
        assert(len + n - 1 == (q + 1) * n + (r - 1)) by (nonlinear_arith)
            requires
                len == n * q + r,
        ;
        vstd::arithmetic::div_mod::lemma_fundamental_div_mod_converse(
            len + n - 1,
            n as int,
            q + 1,
            r - 1,
        );
    } else {
        assert(len + n - 1 == q * n + (n - 1)) by (nonlinear_arith)
            requires
                len == n * q + r,
                r == 0,
        ;
        vstd::arithmetic::div_mod::lemma_fundamental_div_mod_converse(
            len + n - 1,
            n as int,
            q,
            n - 1,
        );
    }
}

/// Cutting a sequence into `n` chunks gives `n` chunks that, joined in
/// order, are the sequence again: every element is in one chunk, none in
/// two, and the order is kept. No chunk is empty, chunk `i` holds
/// `chunk_len(.., i)` elements, and the lengths add up to the length of
/// the sequence.
pub proof fn lemma_even_split_covers<T>(s: Seq<T>, n: nat)
    requires
        1 <= n <= s.len(),
    ensures
        even_split(s, n).len() == n,
        even_split(s, n).flatten() == s,
        forall|i: int|
            0 <= i < n ==> (#[trigger] even_split(s, n)[i]).len() == chunk_len(
                s.len(),
                n,
                i as nat,
            ) && even_split(s, n)[i].len() >= 1,
        total_len(even_split(s, n)) == s.len(),
{
    let all = even_split(s, n);
    lemma_chunks_join(s, n, n);
    lemma_chunk_bounds(s.len(), n, 0);
    assert(all.take(n as int) == all);
    assert forall|i: int| 0 <= i < n implies (#[trigger] all[i]).len() == chunk_len(
        s.len(),
        n,
        i as nat,
    ) && all[i].len() >= 1 by {
        lemma_chunk_bounds(s.len(), n, i as nat);
        lemma_chunk_sizes(s.len(), n, i as nat);
    }
}

/// The first `m` chunks, joined in order, are the sequence up to where
/// chunk `m` begins.
proof fn lemma_chunks_join<T>(s: Seq<T>, n: nat, m: nat)
    requires
        1 <= n,
        m <= n,
    ensures
        even_split(s, n).take(m as int).flatten() == s.subrange(
            0,
            chunk_start(s.len(), n, m) as int,
        ),
        total_len(even_split(s, n).take(m as int)) == chunk_start(s.len(), n, m),
        chunk_start(s.len(), n, m) <= s.len(),
    decreases m,
{
    let all = even_split(s, n);
    if m == 0 {
        lemma_chunk_bounds(s.len(), n, 0);
    } else {
        let before = (m - 1) as nat;
        lemma_chunks_join(s, n, before);
        lemma_chunk_bounds(s.len(), n, before);
        assert(all.take(m as int) == all.take(before as int).push(all[before as int]));
        assert(all.take(m as int).drop_last() == all.take(before as int));
        all.take(before as int).lemma_flatten_push(all[before as int]);
        assert(s.subrange(0, chunk_start(s.len(), n, before) as int) + chunk(s, n, before)
            =~= s.subrange(0, chunk_start(s.len(), n, m) as int));
    }
}

} // verus!
