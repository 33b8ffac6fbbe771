//! Splitting the raw input buffer into lines along a delimiter byte.
//!
//! Chunks are returned as index ranges into the buffer, so no line is
//! copied; empty chunks (consecutive delimiters, a trailing delimiter) are
//! kept and left for the parser to drop.

use vstd::prelude::*;

verus! {

use crate::parse::first_pos;
use crate::parse::lemma_first_pos_found;
use crate::parse::lemma_first_pos_none;
use crate::parse::lemma_first_pos_spec;

/// The chunks of `s` split on the byte `d`: what stands before the first
/// `d`, then the split of what follows it.  A buffer with no `d` is one
/// chunk, possibly empty.
pub open spec fn split_spec(s: Seq<u8>, d: u8) -> Seq<Seq<u8>>
    decreases s.len(),
    via split_spec_decreases
{
    match first_pos(s, d) {
        None => seq![s],
        Some(i) => seq![s.take(i)] + split_spec(s.skip(i + 1), d),
    }
}

#[via_fn]
proof fn split_spec_decreases(s: Seq<u8>, d: u8) {
    lemma_first_pos_spec(s, d);
}

/// There is always one chunk more than there are delimiters, so never more
/// than one chunk per byte plus one.
pub proof fn lemma_split_len(s: Seq<u8>, d: u8)
    ensures
        1 <= split_spec(s, d).len() <= s.len() + 1,
    decreases s.len(),
{
    lemma_first_pos_spec(s, d);
    match first_pos(s, d) {
        None => {},
        Some(i) => {
            lemma_split_len(s.skip(i + 1), d);
        },
    }
}

/// Unfolding step: the first delimiter closes the first chunk.
proof fn lemma_split_step(s: Seq<u8>, d: u8, i: int)
    requires
        0 <= i < s.len(),
        s[i] == d,
        forall|j: int| 0 <= j < i ==> s[j] != d,
    ensures
        split_spec(s, d) == seq![s.take(i)] + split_spec(s.skip(i + 1), d),
{
    lemma_first_pos_found(s, d, i);
}

/// A buffer without the delimiter is a single chunk.
proof fn lemma_split_whole(s: Seq<u8>, d: u8)
    requires
        forall|j: int| 0 <= j < s.len() ==> s[j] != d,
    ensures
        split_spec(s, d) == seq![s],
{
    lemma_first_pos_none(s, d);
}

/// Cutting a buffer at a delimiter splits its chunks there: the chunks of
/// the whole are the chunks of the two halves, in order.
pub proof fn lemma_split_concat(b1: Seq<u8>, b2: Seq<u8>, d: u8)
    ensures
        split_spec(b1 + seq![d] + b2, d) == split_spec(b1, d) + split_spec(b2, d),
    decreases b1.len(),
{
    let s = b1 + seq![d] + b2;
    lemma_first_pos_spec(b1, d);
    match first_pos(b1, d) {
        None => {
            lemma_first_pos_found(s, d, b1.len() as int);
            assert(s.take(b1.len() as int) =~= b1);
            assert(s.skip(b1.len() as int + 1) =~= b2);
            assert(split_spec(s, d) =~= seq![b1] + split_spec(b2, d));
            assert(split_spec(b1, d) + split_spec(b2, d) =~= seq![b1] + split_spec(b2, d));
        },
        Some(i) => {
            lemma_first_pos_found(s, d, i);
            assert(s.take(i) =~= b1.take(i));
            assert(s.skip(i + 1) =~= b1.skip(i + 1) + seq![d] + b2);
            lemma_split_concat(b1.skip(i + 1), b2, d);
            assert(split_spec(s, d) =~= seq![b1.take(i)] + (split_spec(b1.skip(i + 1), d)
                + split_spec(b2, d)));
            assert(split_spec(b1, d) + split_spec(b2, d) =~= seq![b1.take(i)] + (split_spec(
                b1.skip(i + 1),
                d,
            ) + split_spec(b2, d)));
        },
    }
}

/// Split a buffer on the delimiter `d`, returning the chunks as index
/// ranges `[start, end)` into the buffer, in order.
pub fn split_chunks(buf: &[u8], d: u8) -> (r: Vec<(usize, usize)>)
    ensures
        r@.map_values(|p: (usize, usize)| buf@.subrange(p.0 as int, p.1 as int)) == split_spec(buf@, d),
        forall|t: int| 0 <= t < r@.len() ==> (#[trigger] r@[t]).0 <= r@[t].1 <= buf@.len(),
{
    let n = buf.len();
    let mut out: Vec<(usize, usize)> = Vec::new();
    let mut start: usize = 0;
    let mut i: usize = 0;
    proof {
        assert(buf@.skip(0) =~= buf@);
        assert(out@.map_values(|p: (usize, usize)| buf@.subrange(p.0 as int, p.1 as int))
            + split_spec(buf@, d) =~= split_spec(buf@, d));
    }
    while i < n
        invariant
            n == buf@.len(),
            0 <= start <= i <= n,
            forall|j: int| start <= j < i ==> buf@[j] != d,
            forall|t: int| 0 <= t < out@.len() ==> (#[trigger] out@[t]).0 <= out@[t].1 <= n,
            split_spec(buf@, d) == out@.map_values(|p: (usize, usize)| buf@.subrange(p.0 as int, p.1 as int))
                + split_spec(buf@.skip(start as int), d),
        decreases n - i,
    {
        if buf[i] == d {
            proof {
                let rest = buf@.skip(start as int);
                lemma_split_step(rest, d, i - start);
                assert(rest.take(i - start) =~= buf@.subrange(start as int, i as int));
                assert(rest.skip(i - start + 1) =~= buf@.skip(i + 1));
                assert(out@.push((start, i)).map_values(
                    |p: (usize, usize)| buf@.subrange(p.0 as int, p.1 as int))
                    =~= out@.map_values(|p: (usize, usize)| buf@.subrange(p.0 as int, p.1 as int))
                        + seq![buf@.subrange(start as int, i as int)]);
                assert(split_spec(buf@, d) =~= out@.push((start, i)).map_values(
                    |p: (usize, usize)| buf@.subrange(p.0 as int, p.1 as int))
                    + split_spec(buf@.skip(i + 1), d));
            }
            out.push((start, i));
            start = i + 1;
        }
        i = i + 1;
    }
    proof {
        let rest = buf@.skip(start as int);
        lemma_split_whole(rest, d);
        assert(rest =~= buf@.subrange(start as int, n as int));
        assert(out@.push((start, n)).map_values(
            |p: (usize, usize)| buf@.subrange(p.0 as int, p.1 as int))
            =~= out@.map_values(|p: (usize, usize)| buf@.subrange(p.0 as int, p.1 as int))
                + seq![buf@.subrange(start as int, n as int)]);
        assert(split_spec(buf@, d) =~= out@.push((start, n)).map_values(
            |p: (usize, usize)| buf@.subrange(p.0 as int, p.1 as int)));
    }
    out.push((start, n));
    out
}

} // verus!
