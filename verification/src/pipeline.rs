//! The streaming host pipeline: a producer that cuts the input into chunks
//! and copies each into a free pool buffer, and a consumer (the scheduler)
//! that drives the three compute stages over each chunk in order, reads
//! back their results, accumulates the global delimiter count, streams out
//! parsed values, and recycles the buffer.
//!
//! Records that straddle a chunk boundary are handled by an explicit
//! residual: the bytes after the last delimiter of each chunk are carried
//! over and prepended to the next chunk before the position-finding stage,
//! so every record is parsed exactly once, whatever the chunk capacity. A
//! trailing record that the input never closes is parsed when the stream
//! ends.
//!
//! In a deployment the producer and consumer run on two threads, handing
//! buffer ids through channels; each buffer has a single writer at any
//! time, and chunks are consumed in the order they were produced, so that
//! sequential composition — which is what is verified here — is the
//! reference behaviour of the concurrent run.

use vstd::math::min;
use vstd::prelude::*;
use vstd::slice::slice_subrange;
use vstd::slice::slice_to_vec;

use crate::bytes::count_byte;
use crate::bytes::delim_positions;
use crate::bytes::lemma_count_byte_append;
use crate::bytes::lemma_count_byte_le_len;
use crate::bytes::lemma_positions_characterize;
use crate::bytes::lemma_split_append;
use crate::bytes::lemma_split_nonempty;
use crate::bytes::lemma_split_structure;
use crate::bytes::num_records;
use crate::bytes::record_start;
use crate::bytes::split_records;
use crate::charpos::get_char_pos;
use crate::count::count_char_ranges;
use crate::count::exclusive_prefix_sums;
use crate::count::lemma_counts_prefix_sum;
use crate::count::lemma_counts_total;
use crate::count::reduce_counts;
use crate::csv::lemma_scan_at_record_start;
use crate::csv::lemma_scan_final_record;
use crate::csv::parse_csv;
use crate::csv::parse_record;
use crate::csv::record_scan_value;
use crate::dispatch::compute_dispatch;
use crate::bytes::lemma_split_no_delim;
use crate::parse::complete_record_value;
use crate::parse::dec_digits;
use crate::parse::final_record_value;
use crate::parse::first_field;
use crate::parse::first_term_index;
use crate::parse::is_ascii_digit;
use crate::parse::lemma_dec_digits_are_digits;
use crate::parse::lemma_first_term_index;
use crate::parse::lemma_parse_dec_digits;
use crate::parse::NO_TERMINATOR_BASE;
use crate::pool::BufferPool;

verus! {

/// Parsed values of the records that a record delimiter has closed, in
/// stream order.
pub open spec fn completed_values(s: Seq<u8>, rd: u8, fd: u8) -> Seq<u32> {
    split_records(s, rd).drop_last().map_values(|r: Seq<u8>| complete_record_value(r, fd, rd))
}

/// Everything a full pipeline run over `s` emits, in order: one value per
/// closed record, and one more for the trailing record when the input does
/// not end with a record delimiter.
pub open spec fn parsed_records(s: Seq<u8>, rd: u8, fd: u8) -> Seq<u32> {
    if split_records(s, rd).last().len() == 0 {
        completed_values(s, rd, fd)
    } else {
        completed_values(s, rd, fd).push(
            final_record_value(split_records(s, rd).last(), fd, rd),
        )
    }
}

/// The producer's walk over the input: sequential chunking by a fixed
/// capacity.
pub struct Producer {
    /// Total length of the input stream.
    pub total_len: usize,
    /// Chunk capacity (the device buffers' size).
    pub capacity: usize,
    /// Next byte offset to hand out.
    pub offset: usize,
}

impl Producer {
    pub open spec fn wf(self) -> bool {
        self.capacity >= 1 && self.offset <= self.total_len
    }

    pub fn new(total_len: usize, capacity: usize) -> (p: Producer)
        requires
            capacity >= 1,
        ensures
            p.wf(),
            p.total_len == total_len,
            p.capacity == capacity,
            p.offset == 0,
    {
        Producer { total_len, capacity, offset: 0 }
    }

    /// The next chunk's byte range, advancing the walk; `None` once the
    /// whole input has been handed out.
    pub fn next_chunk(&mut self) -> (r: Option<(usize, usize)>)
        requires
            old(self).wf(),
        ensures
            final(self).wf(),
            final(self).total_len == old(self).total_len,
            final(self).capacity == old(self).capacity,
            match r {
                Some(range) => {
                    &&& old(self).offset < old(self).total_len
                    &&& range.0 == old(self).offset
                    &&& range.1 == min(
                        old(self).offset + old(self).capacity,
                        old(self).total_len as int,
                    )
                    &&& range.0 < range.1 <= old(self).total_len
                    &&& final(self).offset == range.1
                },
                None => {
                    &&& old(self).offset == old(self).total_len
                    &&& final(self).offset == old(self).offset
                },
            },
    {
        if self.offset >= self.total_len {
            None
        } else {
            let start = self.offset;
            let room = self.total_len - start;
            let end = if room < self.capacity {
                self.total_len
            } else {
                start + self.capacity
            };
            self.offset = end;
            Some((start, end))
        }
    }
}

/// The consumer's running state: the global accumulator, the residual of
/// the last chunk boundary, and the values streamed out so far. The ghost
/// `processed` tracks the bytes consumed, and well-formedness ties every
/// field to it.
pub struct Scheduler {
    /// The record delimiter being counted and split on.
    pub delim: u8,
    /// The field delimiter inside records.
    pub field_delim: u8,
    /// Global accumulator: delimiters seen so far.
    pub total: u32,
    /// Bytes after the last delimiter seen, carried to the next chunk.
    pub residual: Vec<u8>,
    /// First-column values of all closed records, in stream order.
    pub values: Vec<u32>,
    /// The input consumed so far.
    pub processed: Ghost<Seq<u8>>,
}

impl Scheduler {
    pub open spec fn wf(self) -> bool {
        &&& self.total == count_byte(self.processed@, self.delim)
        &&& self.residual@ == split_records(self.processed@, self.delim).last()
        &&& self.values@ == completed_values(self.processed@, self.delim, self.field_delim)
        &&& self.processed@.len() + NO_TERMINATOR_BASE <= u32::MAX
        &&& self.residual@.len() <= self.processed@.len()
    }

    pub fn new(delim: u8, field_delim: u8) -> (s: Scheduler)
        ensures
            s.wf(),
            s.delim == delim,
            s.field_delim == field_delim,
            s.processed@ == Seq::<u8>::empty(),
    {
        let s = Scheduler {
            delim,
            field_delim,
            total: 0,
            residual: Vec::new(),
            values: Vec::new(),
            processed: Ghost(Seq::empty()),
        };
        proof {
            let e = Seq::<u8>::empty();
            assert(split_records(e, delim).last() =~= e);
            assert(split_records(e, delim).drop_last() =~~= Seq::<Seq<u8>>::empty());
            assert(s.values@ =~= completed_values(e, delim, field_delim));
        }
        s
    }

    /// Consumes one chunk, strictly in stage order: sizes and runs the
    /// counting stage over the chunk and folds the read-back tallies into
    /// the global accumulator; prepends the carried residual; sizes the
    /// compacted output from the reduced count (the data-dependent
    /// intermediate sizing that forces a host-visible barrier between the
    /// stages) and runs the compaction stage with the exclusive prefix
    /// sums; runs the parsing stage over every closed record; and keeps
    /// the bytes after the last delimiter as the next residual.
    #[verifier::loop_isolation(false)]
    pub fn process_chunk(&mut self, chunk: &[u8], threads_per_workgroup: u32, max_workgroups: u32)
        requires
            old(self).wf(),
            old(self).processed@.len() + chunk@.len() + NO_TERMINATOR_BASE <= u32::MAX,
            2 * (old(self).processed@.len() + chunk@.len()) + threads_per_workgroup <= usize::MAX,
            threads_per_workgroup >= 1,
            max_workgroups >= 1,
        ensures
            final(self).wf(),
            final(self).delim == old(self).delim,
            final(self).field_delim == old(self).field_delim,
            final(self).processed@ == old(self).processed@ + chunk@,
            final(self).total == old(self).total + count_byte(chunk@, old(self).delim),
    {
        let rd = self.delim;
        let fd = self.field_delim;
        let ghost old_p = self.processed@;
        let ghost old_values = self.values@;

        // stage 1: count the chunk's delimiters and accumulate
        proof {
            lemma_count_byte_le_len(chunk@, rd);
            lemma_count_byte_le_len(old_p, rd);
            lemma_count_byte_append(old_p, chunk@, rd);
        }
        let dl = chunk.len() as u32;
        let cp = compute_dispatch(dl, threads_per_workgroup, max_workgroups);
        let n_threads = cp.n_workgroups as usize * cp.threads_per_workgroup as usize;
        let cs = cp.chunk_size as usize;
        let counts = count_char_ranges(chunk, rd, cs, n_threads);
        proof {
            lemma_counts_total(chunk@, rd, cs as int, counts@);
        }
        let chunk_count = reduce_counts(&counts);
        self.total = self.total + chunk_count;

        // the compaction and parsing stages see the residual first
        let mut e: Vec<u8> = slice_to_vec(self.residual.as_slice());
        let mut i: usize = 0;
        while i < chunk.len()
            invariant
                i <= chunk@.len(),
                e@ == self.residual@ + chunk@.take(i as int),
            decreases chunk@.len() - i,
        {
            e.push(chunk[i]);
            i = i + 1;
        }
        proof {
            assert(e@ =~= self.residual@ + chunk@);
            lemma_count_byte_le_len(e@, rd);
        }

        // stage 2: compact the delimiter positions of the joined bytes,
        // sized from the reduced count read back from stage 1
        let el = e.len() as u32;
        let ep = compute_dispatch(el, threads_per_workgroup, max_workgroups);
        let e_threads = ep.n_workgroups as usize * ep.threads_per_workgroup as usize;
        let ecs = ep.chunk_size as usize;
        let counts_e = count_char_ranges(e.as_slice(), rd, ecs, e_threads);
        proof {
            lemma_counts_total(e@, rd, ecs as int, counts_e@);
        }
        let m = reduce_counts(&counts_e);
        let prefix = exclusive_prefix_sums(&counts_e);
        proof {
            assert forall|t: int| 0 <= t < e_threads implies prefix@[t] == count_byte(
                e@.take(min(t * ecs, e@.len() as int)),
                rd,
            ) by {
                lemma_counts_prefix_sum(e@, rd, ecs as int, counts_e@, t);
            }
        }
        let pos = get_char_pos(e.as_slice(), rd, ecs, e_threads, &prefix, m);
        let mu = m as usize;
        proof {
            lemma_positions_characterize(e@, rd);
            lemma_split_structure(e@, rd);
        }

        // stage 3: parse the first field of every closed record
        proof {
            assert forall|j: int| 0 <= j < pos@.len() - 1 implies #[trigger] pos@[j]
                < e@.len() by {
                let p = delim_positions(e@, rd);
                if j == 0 {
                    assert(p[0] < e@.len());
                } else {
                    assert(pos@[j] == p[j - 1] + 1);
                    assert(p[j - 1] < p[j]);
                }
            }
        }
        let vals = parse_csv(e.as_slice(), &pos, fd, rd);
        proof {
            assert forall|j: int| 0 <= j < mu implies #[trigger] vals@[j] == completed_values(
                e@,
                rd,
                fd,
            )[j] by {
                assert(vals@[j] == record_scan_value(e@, pos@[j] as int, fd, rd));
                assert(pos@[j] == record_start(e@, rd, j));
                lemma_scan_at_record_start(e@, rd, fd, j);
                assert(split_records(e@, rd).drop_last()[j] == split_records(e@, rd)[j]);
            }
            assert(vals@ =~= completed_values(e@, rd, fd));
        }
        let ghost pre = *self;
        let mut vi: usize = 0;
        while vi < vals.len()
            invariant
                vi <= vals@.len(),
                *self == (Scheduler { values: self.values, ..pre }),
                self.values@ == pre.values@ + vals@.take(vi as int),
            decreases vals@.len() - vi,
        {
            self.values.push(vals[vi]);
            vi = vi + 1;
        }
        proof {
            assert(vals@.take(vals@.len() as int) =~= vals@);
        }

        // the open trailing record becomes the next residual
        let start = if mu == 0 {
            0
        } else {
            pos[mu] as usize
        };
        proof {
            assert(start == record_start(e@, rd, mu as int));
        }
        let tail = slice_subrange(e.as_slice(), start, e.len());
        self.residual = slice_to_vec(tail);
        self.processed = Ghost(old_p + chunk@);

        proof {
            let np = old_p + chunk@;
            lemma_split_append(old_p, chunk@, rd);
            lemma_split_nonempty(old_p, rd);
            lemma_split_nonempty(e@, rd);
            let a = split_records(old_p, rd).drop_last();
            let b = split_records(e@, rd);
            assert(e@ == split_records(old_p, rd).last() + chunk@);
            assert(split_records(np, rd) =~~= a + b);
            assert(split_records(np, rd).last() == b.last());
            assert(self.residual@ == split_records(e@, rd).last());
            assert(split_records(np, rd).drop_last() =~~= a + b.drop_last());
            assert forall|k: int|
                0 <= k < completed_values(np, rd, fd).len() implies #[trigger] completed_values(
                np,
                rd,
                fd,
            )[k] == self.values@[k] by {
                if k < a.len() {
                    assert(split_records(np, rd).drop_last()[k] == split_records(
                        old_p,
                        rd,
                    ).drop_last()[k]);
                } else {
                    assert(split_records(np, rd).drop_last()[k] == b.drop_last()[k - a.len()]);
                }
            }
            assert(completed_values(np, rd, fd) =~= self.values@);
            assert(split_records(np, rd).last().len() <= np.len());
        }
    }

    /// Ends the run: parses the trailing record, if the input left one
    /// open, and hands back the global count with the values in stream
    /// order.
    pub fn finish(self) -> (out: (u32, Vec<u32>))
        requires
            self.wf(),
        ensures
            out.0 == count_byte(self.processed@, self.delim),
            out.1@ == parsed_records(self.processed@, self.delim, self.field_delim),
    {
        let Scheduler { delim, field_delim, total, residual, mut values, processed } = self;
        if residual.len() > 0 {
            let v = parse_record(residual.as_slice(), 0, field_delim, delim);
            proof {
                lemma_scan_final_record(residual@, delim, field_delim);
            }
            values.push(v);
        }
        (total, values)
    }
}

/// One whole run over `input`: the producer cuts the next chunk and copies
/// it into a free pool buffer; the scheduler consumes the buffer through
/// the three stages and releases it (the final chunk's buffer is not
/// recycled: the run ends there and teardown reclaims it). Whatever the
/// chunk capacity and pool size, the count equals a sequential scan of the
/// whole input and the values are those of the whole input's records in
/// order.
pub fn run_pipeline(
    input: &[u8],
    delim: u8,
    field_delim: u8,
    capacity: usize,
    pool_size: usize,
    threads_per_workgroup: u32,
    max_workgroups: u32,
) -> (out: (u32, Vec<u32>))
    requires
        capacity >= 1,
        pool_size >= 1,
        input@.len() + NO_TERMINATOR_BASE <= u32::MAX,
        2 * input@.len() + threads_per_workgroup <= usize::MAX,
        threads_per_workgroup >= 1,
        max_workgroups >= 1,
    ensures
        out.0 == count_byte(input@, delim),
        out.1@ == parsed_records(input@, delim, field_delim),
{
    let total_len = input.len();
    let mut pool = BufferPool::new(pool_size, capacity);
    let mut producer = Producer::new(total_len, capacity);
    let mut sched = Scheduler::new(delim, field_delim);
    proof {
        assert(input@.take(0) =~= Seq::<u8>::empty());
    }
    while producer.offset < producer.total_len
        invariant
            producer.wf(),
            producer.total_len == total_len,
            producer.capacity == capacity,
            total_len == input@.len(),
            capacity >= 1,
            pool_size >= 1,
            input@.len() + NO_TERMINATOR_BASE <= u32::MAX,
            2 * input@.len() + threads_per_workgroup <= usize::MAX,
            threads_per_workgroup >= 1,
            max_workgroups >= 1,
            pool.wf(),
            pool.num_buffers() == pool_size,
            pool.buffer_capacity() == capacity,
            producer.offset < total_len ==> pool.num_free() == pool_size,
            sched.wf(),
            sched.delim == delim,
            sched.field_delim == field_delim,
            sched.processed@ == input@.take(producer.offset as int),
        decreases producer.total_len - producer.offset,
    {
        let r = producer.next_chunk();
        let (start, end) = r.unwrap();
        let r2 = pool.acquire();
        let id = r2.unwrap();
        let chunk = slice_subrange(input, start, end);
        pool.fill(id, chunk);
        let buf = pool.buffer_bytes(id);
        proof {
            assert(sched.processed@.len() + buf@.len() <= input@.len());
            assert(input@.take(start as int) + input@.subrange(start as int, end as int)
                =~= input@.take(end as int));
        }
        sched.process_chunk(buf.as_slice(), threads_per_workgroup, max_workgroups);
        if end < total_len {
            pool.release(id);
        }
    }
    proof {
        assert(input@.take(input@.len() as int) =~= input@);
    }
    sched.finish()
}

/// A synthetic stream of well-formed numeric fields: each value rendered in
/// decimal and closed by the record delimiter.
pub open spec fn render_records(vs: Seq<u32>, rd: u8) -> Seq<u8>
    decreases vs.len(),
{
    if vs.len() == 0 {
        Seq::empty()
    } else {
        render_records(vs.drop_last(), rd) + dec_digits(vs.last() as nat).push(rd)
    }
}

/// Splitting such a stream yields exactly the digit strings, each a closed
/// record, and an empty open trailing record.
proof fn lemma_render_split(vs: Seq<u32>, rd: u8)
    requires
        !is_ascii_digit(rd),
    ensures
        split_records(render_records(vs, rd), rd) =~~= vs.map_values(
            |v: u32| dec_digits(v as nat),
        ).push(Seq::<u8>::empty()),
    decreases vs.len(),
{
    if vs.len() == 0 {
        assert(render_records(vs, rd) =~= Seq::<u8>::empty());
    } else {
        let vs0 = vs.drop_last();
        let v = vs.last();
        lemma_render_split(vs0, rd);
        let s0 = render_records(vs0, rd);
        let dd = dec_digits(v as nat);
        let t = dd.push(rd);
        lemma_split_append(s0, t, rd);
        lemma_split_nonempty(s0, rd);
        assert(split_records(s0, rd).last() =~= Seq::<u8>::empty());
        assert(Seq::<u8>::empty() + t =~= t);
        lemma_dec_digits_are_digits(v as nat);
        assert forall|i: int| 0 <= i < dd.len() implies dd[i] != rd by {
            assert(is_ascii_digit(dd[i]));
        }
        lemma_split_no_delim(dd, rd);
        assert(t.drop_last() =~= dd);
        assert(t.last() == rd);
        assert(split_records(t, rd) =~~= seq![dd, Seq::<u8>::empty()]);
    }
}

/// Round trip: a stream holding only well-formed numeric fields separated
/// by the record delimiter parses back to exactly those values, in order.
pub proof fn lemma_round_trip(vs: Seq<u32>, rd: u8, fd: u8)
    requires
        !is_ascii_digit(rd),
        !is_ascii_digit(fd),
    ensures
        parsed_records(render_records(vs, rd), rd, fd) =~= vs,
{
    lemma_render_split(vs, rd);
    let s = render_records(vs, rd);
    lemma_split_nonempty(s, rd);
    assert(split_records(s, rd).last() =~= Seq::<u8>::empty());
    assert forall|j: int| 0 <= j < vs.len() implies completed_values(s, rd, fd)[j] == vs[j] by {
        let r = dec_digits(vs[j] as nat);
        assert(split_records(s, rd).drop_last()[j] == r);
        lemma_dec_digits_are_digits(vs[j] as nat);
        lemma_first_term_index(r, fd, rd);
        let fti = first_term_index(r, fd, rd);
        if fti < r.len() {
            assert(is_ascii_digit(r[fti]));
            assert(false);
        }
        assert(first_field(r, fd, rd) =~= r);
        lemma_parse_dec_digits(vs[j] as nat);
    }
}

/// A zero-length input: the count is zero and no record value is emitted.
pub proof fn lemma_empty_input(rd: u8, fd: u8)
    ensures
        count_byte(Seq::<u8>::empty(), rd) == 0,
        parsed_records(Seq::<u8>::empty(), rd, fd) =~= Seq::<u32>::empty(),
{
    assert(split_records(Seq::<u8>::empty(), rd).last() =~= Seq::<u8>::empty());
}

} // verus!
