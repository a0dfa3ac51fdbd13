//! The delimiter-counting stage: a sequential scan, and the data-parallel
//! per-thread partition that the counting kernel runs, proved to agree with
//! the scan.

use vstd::arithmetic::div_mod::lemma_fundamental_div_mod;
use vstd::arithmetic::mul::lemma_mul_inequality;
use vstd::arithmetic::mul::lemma_mul_nonnegative;
use vstd::math::min;
use vstd::prelude::*;
use vstd::slice::slice_subrange;

use crate::bytes::count_byte;
use crate::bytes::lemma_count_byte_append;
use crate::bytes::lemma_count_byte_le_len;
use crate::bytes::lemma_count_byte_take_all;
use crate::bytes::lemma_count_byte_take_step;
use crate::error::FatalError;

verus! {

/// Sequential scan: counts the occurrences of `ch` in `data` one byte at a
/// time.
pub fn cpu_count_char(data: &[u8], ch: u8) -> (count: u32)
    requires
        data@.len() <= u32::MAX,
    ensures
        count == count_byte(data@, ch),
{
    let mut count: u32 = 0;
    let n = data.len();
    let mut i: usize = 0;
    proof {
        assert(data@.take(0) =~= Seq::<u8>::empty());
    }
    while i < n
        invariant
            i <= n,
            n == data@.len() <= u32::MAX,
            count == count_byte(data@.take(i as int), ch),
        decreases n - i,
    {
        proof {
            lemma_count_byte_take_step(data@, ch, i as int);
            lemma_count_byte_le_len(data@.take(i as int + 1), ch);
        }
        if data[i] == ch {
            count = count + 1;
        }
        i = i + 1;
    }
    proof {
        lemma_count_byte_take_all(data@, ch);
    }
    count
}

/// Sum of a sequence of per-thread counters.
pub open spec fn sum_u32(s: Seq<u32>) -> int
    decreases s.len(),
{
    if s.len() == 0 {
        0
    } else {
        sum_u32(s.drop_last()) + s.last()
    }
}

pub proof fn lemma_sum_take_step(s: Seq<u32>, i: int)
    requires
        0 <= i < s.len(),
    ensures
        sum_u32(s.take(i + 1)) == sum_u32(s.take(i)) + s[i],
{
    assert(s.take(i + 1).drop_last() =~= s.take(i));
    assert(s.take(i + 1).last() == s[i]);
}

/// Counters are non-negative, so a prefix never sums to more than the whole.
pub proof fn lemma_sum_take_le(s: Seq<u32>, i: int)
    requires
        0 <= i <= s.len(),
    ensures
        0 <= sum_u32(s.take(i)) <= sum_u32(s),
    decreases s.len(),
{
    if i == s.len() {
        assert(s.take(i) =~= s);
        lemma_sum_nonneg(s);
    } else {
        lemma_sum_take_le(s.drop_last(), i);
        assert(s.drop_last().take(i) =~= s.take(i));
    }
}

pub proof fn lemma_sum_nonneg(s: Seq<u32>)
    ensures
        sum_u32(s) >= 0,
    decreases s.len(),
{
    if s.len() > 0 {
        lemma_sum_nonneg(s.drop_last());
    }
}

/// Byte range of thread `t` under per-thread span `cs`: the thread scans
/// `[t * cs, t * cs + cs)`, clipped to the data's length.
pub open spec fn thread_lo(cs: int, t: int, len: int) -> int {
    min(t * cs, len)
}

pub open spec fn thread_hi(cs: int, t: int, len: int) -> int {
    min(t * cs + cs, len)
}

/// The bytes thread `t` scans.
pub open spec fn thread_slice(s: Seq<u8>, cs: int, t: int) -> Seq<u8> {
    s.subrange(thread_lo(cs, t, s.len() as int), thread_hi(cs, t, s.len() as int))
}

/// The counting kernel over all of its threads: thread `t` counts the
/// occurrences of `ch` in its own byte range and writes the tally to its
/// slot of the output. (The device runs the threads in parallel; their
/// ranges are disjoint, so the order does not matter and this sequential
/// model computes the same slots.)
pub fn count_char_ranges(data: &[u8], ch: u8, chunk_size: usize, n_threads: usize) -> (counts: Vec<
    u32,
>)
    requires
        chunk_size >= 1,
        data@.len() <= u32::MAX,
        n_threads * chunk_size <= usize::MAX,
    ensures
        counts@.len() == n_threads,
        forall|t: int|
            0 <= t < n_threads ==> counts@[t] == count_byte(
                thread_slice(data@, chunk_size as int, t),
                ch,
            ),
{
    let len = data.len();
    let mut counts: Vec<u32> = Vec::new();
    let mut t: usize = 0;
    while t < n_threads
        invariant
            t <= n_threads,
            len == data@.len() <= u32::MAX,
            chunk_size >= 1,
            n_threads * chunk_size <= usize::MAX,
            counts@.len() == t,
            forall|j: int|
                0 <= j < t ==> counts@[j] == count_byte(
                    thread_slice(data@, chunk_size as int, j),
                    ch,
                ),
        decreases n_threads - t,
    {
        proof {
            lemma_mul_inequality(t as int + 1, n_threads as int, chunk_size as int);
            assert((t as int + 1) * chunk_size as int == t as int * chunk_size as int
                + chunk_size as int) by (nonlinear_arith);
        }
        let base = t * chunk_size;
        let lo = if base < len {
            base
        } else {
            len
        };
        let hi = if base + chunk_size < len {
            base + chunk_size
        } else {
            len
        };
        let part = slice_subrange(data, lo, hi);
        let c = cpu_count_char(part, ch);
        proof {
            assert(part@ =~= thread_slice(data@, chunk_size as int, t as int));
        }
        counts.push(c);
        t = t + 1;
    }
    counts
}

/// A prefix of the per-thread counts sums to the count of the corresponding
/// prefix of the data: the thread ranges tile the data in order.
pub proof fn lemma_counts_prefix_sum(s: Seq<u8>, ch: u8, cs: int, counts: Seq<u32>, t: int)
    requires
        cs >= 1,
        0 <= t <= counts.len(),
        forall|j: int| 0 <= j < counts.len() ==> counts[j] == count_byte(thread_slice(s, cs, j), ch),
    ensures
        sum_u32(counts.take(t)) == count_byte(s.take(min(t * cs, s.len() as int)), ch),
    decreases t,
{
    let len = s.len() as int;
    if t == 0 {
        assert(counts.take(0) =~= Seq::<u32>::empty());
        assert(s.take(0) =~= Seq::<u8>::empty());
        assert(t * cs == 0) by (nonlinear_arith)
            requires
                t == 0,
        ;
    } else {
        lemma_counts_prefix_sum(s, ch, cs, counts, t - 1);
        lemma_sum_take_step(counts, t - 1);
        lemma_mul_inequality(t - 1, t, cs);
        lemma_mul_nonnegative(t - 1, cs);
        let lo = min((t - 1) * cs, len);
        let hi = min(t * cs, len);
        assert((t - 1) * cs + cs == t * cs) by (nonlinear_arith);
        assert(0 <= lo <= hi <= len);
        assert(counts[t - 1] == count_byte(thread_slice(s, cs, t - 1), ch));
        assert(thread_slice(s, cs, t - 1) == s.subrange(lo, hi));
        lemma_count_byte_append(s.take(lo), s.subrange(lo, hi), ch);
        assert(s.take(lo) + s.subrange(lo, hi) =~= s.take(hi));
        assert(sum_u32(counts.take(t)) == sum_u32(counts.take(t - 1)) + counts[t - 1]);
    }
}

/// When the threads cover the whole input, their counts sum to the count of
/// the whole input.
pub proof fn lemma_counts_total(s: Seq<u8>, ch: u8, cs: int, counts: Seq<u32>)
    requires
        cs >= 1,
        counts.len() * cs >= s.len(),
        forall|j: int| 0 <= j < counts.len() ==> counts[j] == count_byte(thread_slice(s, cs, j), ch),
    ensures
        sum_u32(counts) == count_byte(s, ch),
{
    let n = counts.len() as int;
    lemma_counts_prefix_sum(s, ch, cs, counts, n);
    assert(counts.take(n) =~= counts);
    assert(min(n * cs, s.len() as int) == s.len() as int);
    assert(s.take(s.len() as int) =~= s);
}

/// Host-side reduction of the counting kernel's output, as read back from
/// the device: the total number of matches in the chunk.
pub fn reduce_counts(counts: &Vec<u32>) -> (total: u32)
    requires
        sum_u32(counts@) <= u32::MAX,
    ensures
        total == sum_u32(counts@),
{
    let mut total: u32 = 0;
    let mut i: usize = 0;
    proof {
        assert(counts@.take(0) =~= Seq::<u32>::empty());
    }
    while i < counts.len()
        invariant
            i <= counts@.len(),
            sum_u32(counts@) <= u32::MAX,
            total == sum_u32(counts@.take(i as int)),
        decreases counts@.len() - i,
    {
        proof {
            lemma_sum_take_step(counts@, i as int);
            lemma_sum_take_le(counts@, i as int + 1);
        }
        total = total + counts[i];
        i = i + 1;
    }
    proof {
        assert(counts@.take(counts@.len() as int) =~= counts@);
    }
    total
}

/// Exclusive prefix sums of the per-thread counts: slot `t` is the number of
/// matches strictly before thread `t`'s range, the write offset each thread
/// of the compaction kernel starts at.
pub fn exclusive_prefix_sums(counts: &Vec<u32>) -> (pre: Vec<u32>)
    requires
        sum_u32(counts@) <= u32::MAX,
    ensures
        pre@.len() == counts@.len(),
        forall|t: int| 0 <= t < counts@.len() ==> pre@[t] == sum_u32(counts@.take(t)),
{
    let mut pre: Vec<u32> = Vec::new();
    let mut acc: u32 = 0;
    let mut i: usize = 0;
    proof {
        assert(counts@.take(0) =~= Seq::<u32>::empty());
    }
    while i < counts.len()
        invariant
            i <= counts@.len(),
            sum_u32(counts@) <= u32::MAX,
            acc == sum_u32(counts@.take(i as int)),
            pre@.len() == i,
            forall|t: int| 0 <= t < i ==> pre@[t] == sum_u32(counts@.take(t)),
        decreases counts@.len() - i,
    {
        pre.push(acc);
        proof {
            lemma_sum_take_step(counts@, i as int);
            lemma_sum_take_le(counts@, i as int + 1);
        }
        acc = acc + counts[i];
        i = i + 1;
    }
    pre
}

/// Counts the occurrences of `ch` in `data`, on the device path when the
/// input offers enough parallelism and with the plain sequential scan when
/// it does not. Both paths return the exact count; the partitioned path is
/// the counting kernel's thread model with the per-thread span the driver
/// derives from `nthreads`.
pub fn count_char(nthreads: usize, data: &[u8], ch: u8) -> (r: Result<u32, FatalError>)
    requires
        nthreads >= 1,
        data@.len() <= u32::MAX,
        data@.len() + nthreads <= usize::MAX,
    ensures
        r == Ok::<u32, FatalError>((count_byte(data@, ch) as u32)),
{
    proof {
        lemma_count_byte_le_len(data@, ch);
    }
    if data.len() / 2 < nthreads {
        // insufficient parallelism, reduce sequentially
        Ok(cpu_count_char(data, ch))
    } else {
        let chunk_size = data.len() / nthreads + 1;
        proof {
            lemma_fundamental_div_mod(data@.len() as int, nthreads as int);
            assert(nthreads * chunk_size == nthreads as int * (data@.len() as int / nthreads as int)
                + nthreads) by (nonlinear_arith)
                requires
                    chunk_size == data@.len() as int / nthreads as int + 1,
            ;
            assert(nthreads as int * (data@.len() as int / nthreads as int) == data@.len() as int
                - data@.len() as int % nthreads as int);
        }
        let counts = count_char_ranges(data, ch, chunk_size, nthreads);
        proof {
            lemma_counts_total(data@, ch, chunk_size as int, counts@);
        }
        Ok(reduce_counts(&counts))
    }
}

} // verus!
