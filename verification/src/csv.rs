//! The field-parsing stage: for each record start offset handed over by the
//! position-compaction stage, scan forward to the first field delimiter or
//! record delimiter and parse the span between as an unsigned decimal — the
//! first column of each record. A scan that runs out of input yields the
//! no-terminator sentinel; the last offset of the list (the start of the
//! still-open trailing record) is not parsed here.

use vstd::prelude::*;

use crate::bytes::delim_positions;
use crate::bytes::lemma_positions_characterize;
use crate::bytes::lemma_split_structure;
use crate::bytes::record_start;
use crate::bytes::split_records;
use crate::parse::complete_record_value;
use crate::parse::final_record_value;
use crate::parse::first_field;
use crate::parse::first_term_index;
use crate::parse::has_field_terminator;
use crate::parse::lemma_first_term_append;
use crate::parse::lemma_first_term_index;
use crate::parse::parse_u32;
use crate::parse::parse_u32_spec;
use crate::parse::NO_TERMINATOR_BASE;

verus! {

/// Where the field scan started at `start` ends: the first offset at or
/// after `start` holding `fd` or `rd`, or the end of the data.
pub open spec fn scan_end(s: Seq<u8>, start: int, fd: u8, rd: u8) -> int {
    start + first_term_index(s.skip(start), fd, rd)
}

/// What the scan started at `start` yields: the parse of the span up to the
/// terminator it found, or the no-terminator sentinel encoding `start`.
pub open spec fn record_scan_value(s: Seq<u8>, start: int, fd: u8, rd: u8) -> u32 {
    if scan_end(s, start, fd, rd) < s.len() {
        parse_u32_spec(s.subrange(start, scan_end(s, start, fd, rd)))
    } else {
        (NO_TERMINATOR_BASE + start) as u32
    }
}

/// One parsing thread's work for one record start offset.
pub fn parse_record(data: &[u8], start: usize, fd: u8, rd: u8) -> (v: u32)
    requires
        start < data@.len(),
        data@.len() + NO_TERMINATOR_BASE <= u32::MAX,
    ensures
        v == record_scan_value(data@, start as int, fd, rd),
{
    let len = data.len();
    let mut e = start;
    while e < len && data[e] != fd && data[e] != rd
        invariant
            start <= e <= len,
            len == data@.len(),
            forall|k: int| start <= k < e ==> data@[k] != fd && data@[k] != rd,
        decreases len - e,
    {
        e = e + 1;
    }
    proof {
        let x = data@.skip(start as int);
        lemma_first_term_index(x, fd, rd);
        let fti = first_term_index(x, fd, rd);
        assert(forall|j: int| 0 <= j < x.len() ==> x[j] == data@[start + j]);
        if e - start < fti {
            assert(x[e - start] != fd && x[e - start] != rd);
            assert(false);
        }
        if fti < e - start {
            assert(data@[start + fti] != fd && data@[start + fti] != rd);
            assert(false);
        }
        assert(e == scan_end(data@, start as int, fd, rd));
    }
    if e < len {
        parse_u32(data, start, e)
    } else {
        NO_TERMINATOR_BASE + (start as u32)
    }
}

/// The parsing kernel over all of its threads: entry `j` of the output is
/// what the scan started at `line_start_offsets[j]` yields. (On the device
/// each thread handles a block of consecutive offsets; the entries are
/// independent, so this sequential model fills the same slots.)
pub fn parse_csv(data: &[u8], line_start_offsets: &Vec<u32>, fd: u8, rd: u8) -> (parsed: Vec<u32>)
    requires
        line_start_offsets@.len() >= 1,
        data@.len() + NO_TERMINATOR_BASE <= u32::MAX,
        forall|j: int|
            0 <= j < line_start_offsets@.len() - 1 ==> #[trigger] line_start_offsets@[j]
                < data@.len(),
    ensures
        parsed@.len() == line_start_offsets@.len() - 1,
        forall|j: int|
            0 <= j < parsed@.len() ==> #[trigger] parsed@[j] == record_scan_value(
                data@,
                line_start_offsets@[j] as int,
                fd,
                rd,
            ),
{
    let n = line_start_offsets.len() - 1;
    let mut parsed: Vec<u32> = Vec::new();
    let mut j: usize = 0;
    while j < n
        invariant
            j <= n,
            n == line_start_offsets@.len() - 1,
            data@.len() + NO_TERMINATOR_BASE <= u32::MAX,
            forall|q: int|
                0 <= q < line_start_offsets@.len() - 1 ==> #[trigger] line_start_offsets@[q]
                    < data@.len(),
            parsed@.len() == j,
            forall|q: int|
                0 <= q < j ==> #[trigger] parsed@[q] == record_scan_value(
                    data@,
                    line_start_offsets@[q] as int,
                    fd,
                    rd,
                ),
        decreases n - j,
    {
        let start = line_start_offsets[j] as usize;
        let v = parse_record(data, start, fd, rd);
        parsed.push(v);
        j = j + 1;
    }
    parsed
}

/// The scan started at the start offset of a closed record yields that
/// record's parsed value: the record holds no record delimiter, so the scan
/// stops inside it at a field delimiter or, at the latest, on the record
/// delimiter that closes it.
pub proof fn lemma_scan_at_record_start(s: Seq<u8>, rd: u8, fd: u8, j: int)
    requires
        0 <= j < delim_positions(s, rd).len(),
    ensures
        0 <= record_start(s, rd, j) < s.len(),
        record_scan_value(s, record_start(s, rd, j), fd, rd) == complete_record_value(
            split_records(s, rd)[j],
            fd,
            rd,
        ),
{
    lemma_positions_characterize(s, rd);
    lemma_split_structure(s, rd);
    let p = delim_positions(s, rd);
    let start = record_start(s, rd, j);
    let r = split_records(s, rd)[j];
    assert(start <= p[j]);
    assert(r == s.subrange(start, p[j]));
    let y = s.skip(p[j]);
    assert(y.first() == s[p[j]]);
    assert(first_term_index(y, fd, rd) == 0);
    assert(s.skip(start) =~= r + y);
    lemma_first_term_append(r, y, fd, rd);
    lemma_first_term_index(r, fd, rd);
    let fti = first_term_index(r, fd, rd);
    if fti < r.len() {
        assert(scan_end(s, start, fd, rd) == start + fti);
        assert(s.subrange(start, start + fti) =~= r.take(fti));
    } else {
        assert(scan_end(s, start, fd, rd) == start + r.len());
        assert(start + r.len() == p[j]);
        assert(s.subrange(start, p[j]) =~= r.take(fti));
    }
}

/// Parsing the still-open trailing record as a buffer of its own (the scan
/// starting at offset 0) yields its final-record value.
pub proof fn lemma_scan_final_record(r: Seq<u8>, rd: u8, fd: u8)
    requires
        r.len() > 0,
    ensures
        record_scan_value(r, 0, fd, rd) == final_record_value(r, fd, rd),
{
    assert(r.skip(0) =~= r);
    lemma_first_term_index(r, fd, rd);
    let fti = first_term_index(r, fd, rd);
    if has_field_terminator(r, fd, rd) {
        assert(r.subrange(0, fti) =~= first_field(r, fd, rd));
    }
}

} // verus!
