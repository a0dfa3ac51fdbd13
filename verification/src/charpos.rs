//! The position-compaction stage: each thread re-scans its byte range and
//! writes `1 + offset` for every delimiter it finds into a compacted output,
//! starting at the write offset the host computed for it from the counting
//! stage's per-thread tallies. Slot 0 of the output is a reserved header
//! cell holding 0; because the stored values are one past each delimiter,
//! the output doubles as the list of record start offsets.
//!
//! Order policy: every thread writes its matches in ascending byte order,
//! and thread ranges tile the data in order, so the compacted output is
//! ascending overall.

use vstd::arithmetic::mul::lemma_mul_inequality;
use vstd::arithmetic::mul::lemma_mul_nonnegative;
use vstd::math::min;
use vstd::prelude::*;

use crate::bytes::count_byte;
use crate::bytes::delim_positions;
use crate::bytes::lemma_count_byte_append;
use crate::bytes::lemma_count_byte_le_len;
use crate::bytes::lemma_count_byte_take_step;
use crate::bytes::lemma_positions_count;

verus! {

/// A prefix holds at most as many delimiters as the whole.
pub proof fn lemma_count_byte_take_le(s: Seq<u8>, c: u8, i: int)
    requires
        0 <= i <= s.len(),
    ensures
        count_byte(s.take(i), c) <= count_byte(s, c),
{
    lemma_count_byte_append(s.take(i), s.skip(i), c);
    assert(s.take(i) + s.skip(i) =~= s);
}

/// The number of delimiters strictly before a delimiter at offset `k` is its
/// rank in the ascending position list.
pub proof fn lemma_position_rank(s: Seq<u8>, c: u8, k: int)
    requires
        0 <= k < s.len(),
        s[k] == c,
    ensures
        count_byte(s.take(k), c) < delim_positions(s, c).len(),
        delim_positions(s, c)[count_byte(s.take(k), c) as int] == k,
    decreases s.len(),
{
    lemma_positions_count(s, c);
    let d = s.drop_last();
    lemma_positions_count(d, c);
    if k == s.len() - 1 {
        assert(s.take(k) =~= d);
    } else {
        assert(d[k] == c);
        lemma_position_rank(d, c, k);
        assert(d.take(k) =~= s.take(k));
    }
}

/// The compaction kernel over all of its threads. `prefix[t]` must hold the
/// number of matches strictly before thread `t`'s range (the exclusive
/// prefix sums of the counting stage's output) and `total` the number of
/// matches in all of `data`; the result is the header cell followed by
/// `1 + offset` for every delimiter offset, in ascending order.
#[verifier::loop_isolation(false)]
pub fn get_char_pos(
    data: &[u8],
    ch: u8,
    chunk_size: usize,
    n_threads: usize,
    prefix: &Vec<u32>,
    total: u32,
) -> (out: Vec<u32>)
    requires
        chunk_size >= 1,
        n_threads * chunk_size <= usize::MAX,
        n_threads * chunk_size >= data@.len(),
        data@.len() + 1 <= u32::MAX,
        prefix@.len() == n_threads,
        forall|t: int|
            0 <= t < n_threads ==> prefix@[t] == count_byte(
                data@.take(min(t * chunk_size, data@.len() as int)),
                ch,
            ),
        total == count_byte(data@, ch),
    ensures
        out@.len() == total + 1,
        out@[0] == 0,
        forall|r: int|
            1 <= r <= total ==> #[trigger] out@[r] == delim_positions(data@, ch)[r - 1] + 1,
{
    proof {
        lemma_positions_count(data@, ch);
        lemma_count_byte_le_len(data@, ch);
    }
    let len = data.len();
    let m = total as usize;
    let mut out: Vec<u32> = Vec::new();
    let mut z: usize = 0;
    while z < m + 1
        invariant
            z <= m + 1,
            out@.len() == z,
            forall|q: int| 0 <= q < z ==> out@[q] == 0,
        decreases m + 1 - z,
    {
        out.push(0);
        z = z + 1;
    }
    let mut t: usize = 0;
    proof {
        assert(data@.take(0) =~= Seq::<u8>::empty());
        assert(0 * chunk_size as int == 0) by (nonlinear_arith);
    }
    while t < n_threads
        invariant
            t <= n_threads,
            out@.len() == m + 1,
            out@[0] == 0,
            forall|r: int|
                1 <= r <= count_byte(
                    data@.take(min(t * chunk_size, data@.len() as int)),
                    ch,
                ) ==> #[trigger] out@[r] == delim_positions(data@, ch)[r - 1] + 1,
        decreases n_threads - t,
    {
        proof {
            lemma_mul_inequality(t as int + 1, n_threads as int, chunk_size as int);
            lemma_mul_nonnegative(t as int, chunk_size as int);
            assert((t as int + 1) * chunk_size as int == t as int * chunk_size as int
                + chunk_size as int) by (nonlinear_arith);
        }
        let base = t * chunk_size;
        let lo = if base < len {
            base
        } else {
            len
        };
        let hi = if base + chunk_size < len {
            base + chunk_size
        } else {
            len
        };
        let mut i = lo;
        let mut k: usize = 0;
        while i < hi
            invariant
                lo <= i <= hi,
                k + prefix@[t as int] == count_byte(data@.take(i as int), ch),
                out@.len() == m + 1,
                out@[0] == 0,
                forall|r: int|
                    1 <= r <= count_byte(data@.take(i as int), ch) ==> #[trigger] out@[r]
                        == delim_positions(data@, ch)[r - 1] + 1,
            decreases hi - i,
        {
            proof {
                lemma_count_byte_take_step(data@, ch, i as int);
                lemma_count_byte_take_le(data@, ch, i as int + 1);
            }
            if data[i] == ch {
                proof {
                    lemma_position_rank(data@, ch, i as int);
                }
                let idx = 1 + prefix[t] as usize + k;
                out.set(idx, (i as u32) + 1);
                k = k + 1;
            }
            i = i + 1;
        }
        proof {
            assert(count_byte(data@.take(hi as int), ch) == count_byte(
                data@.take(min((t + 1) * chunk_size, data@.len() as int)),
                ch,
            ));
        }
        t = t + 1;
    }
    proof {
        assert(min(n_threads * chunk_size, data@.len() as int) == data@.len() as int);
        assert(data@.take(data@.len() as int) =~= data@);
    }
    out
}

} // verus!
