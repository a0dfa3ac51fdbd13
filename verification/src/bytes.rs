//! Mathematical model of the byte stream: how often a delimiter occurs in a
//! sequence of bytes, at which offsets it occurs, and how the delimiter cuts
//! the sequence into records.

use vstd::prelude::*;

verus! {

/// Number of occurrences of the byte `c` in `s`.
pub open spec fn count_byte(s: Seq<u8>, c: u8) -> nat
    decreases s.len(),
{
    if s.len() == 0 {
        0
    } else {
        count_byte(s.drop_last(), c) + if s.last() == c {
            1nat
        } else {
            0nat
        }
    }
}

/// The count never exceeds the length of the sequence.
pub proof fn lemma_count_byte_le_len(s: Seq<u8>, c: u8)
    ensures
        count_byte(s, c) <= s.len(),
    decreases s.len(),
{
    if s.len() > 0 {
        lemma_count_byte_le_len(s.drop_last(), c);
    }
}

/// Counting distributes over concatenation: however a byte stream is cut
/// into chunks, the chunk counts sum to the count of the whole stream.
pub proof fn lemma_count_byte_append(a: Seq<u8>, b: Seq<u8>, c: u8)
    ensures
        count_byte(a + b, c) == count_byte(a, c) + count_byte(b, c),
    decreases b.len(),
{
    if b.len() == 0 {
        assert(a + b =~= a);
    } else {
        lemma_count_byte_append(a, b.drop_last(), c);
        assert((a + b).drop_last() =~= a + b.drop_last());
        assert((a + b).last() == b.last());
    }
}

/// Counting a prefix extended by one byte.
pub proof fn lemma_count_byte_take_step(s: Seq<u8>, c: u8, i: int)
    requires
        0 <= i < s.len(),
    ensures
        count_byte(s.take(i + 1), c) == count_byte(s.take(i), c) + if s[i] == c {
            1nat
        } else {
            0nat
        },
{
    assert(s.take(i + 1).drop_last() =~= s.take(i));
    assert(s.take(i + 1).last() == s[i]);
}

/// The whole sequence is the `s.len()`-prefix of itself.
pub proof fn lemma_count_byte_take_all(s: Seq<u8>, c: u8)
    ensures
        count_byte(s.take(s.len() as int), c) == count_byte(s, c),
{
    assert(s.take(s.len() as int) =~= s);
}

/// The offsets at which the byte `c` occurs in `s`, in ascending order.
pub open spec fn delim_positions(s: Seq<u8>, c: u8) -> Seq<int>
    decreases s.len(),
{
    if s.len() == 0 {
        Seq::empty()
    } else if s.last() == c {
        delim_positions(s.drop_last(), c).push(s.len() - 1)
    } else {
        delim_positions(s.drop_last(), c)
    }
}

/// There is one recorded position per occurrence.
pub proof fn lemma_positions_count(s: Seq<u8>, c: u8)
    ensures
        delim_positions(s, c).len() == count_byte(s, c),
    decreases s.len(),
{
    if s.len() > 0 {
        lemma_positions_count(s.drop_last(), c);
    }
}

/// The recorded positions are exactly the offsets holding `c`: each entry is
/// an in-bounds offset holding `c`, they are strictly ascending (hence free
/// of duplicates), and every offset holding `c` is recorded.
pub proof fn lemma_positions_characterize(s: Seq<u8>, c: u8)
    ensures
        delim_positions(s, c).len() == count_byte(s, c),
        forall|r: int|
            0 <= r < delim_positions(s, c).len() ==> 0 <= #[trigger] delim_positions(s, c)[r]
                < s.len() && s[delim_positions(s, c)[r]] == c,
        forall|r1: int, r2: int|
            0 <= r1 < r2 < delim_positions(s, c).len() ==> delim_positions(s, c)[r1]
                < delim_positions(s, c)[r2],
        forall|k: int| 0 <= k < s.len() && s[k] == c ==> delim_positions(s, c).contains(k),
    decreases s.len(),
{
    lemma_positions_count(s, c);
    if s.len() > 0 {
        lemma_positions_characterize(s.drop_last(), c);
        let p = delim_positions(s, c);
        let q = delim_positions(s.drop_last(), c);
        assert forall|k: int| 0 <= k < s.len() && s[k] == c implies p.contains(k) by {
            if k < s.len() - 1 {
                assert(s.drop_last()[k] == c);
                assert(q.contains(k));
                let r = choose|r: int| 0 <= r < q.len() && q[r] == k;
                assert(p[r] == k);
            } else {
                assert(s.last() == c);
                assert(p[p.len() - 1] == k);
            }
        }
    }
}

/// The records of `s` under the record delimiter `c`: the segments between
/// occurrences of `c`, the delimiters themselves excluded. The list is never
/// empty; its last element is the trailing segment after the last delimiter
/// (empty when `s` ends with `c` or is empty), left open because the stream
/// may continue.
pub open spec fn split_records(s: Seq<u8>, c: u8) -> Seq<Seq<u8>>
    decreases s.len(),
{
    if s.len() == 0 {
        seq![Seq::<u8>::empty()]
    } else if s.last() == c {
        split_records(s.drop_last(), c).push(Seq::empty())
    } else {
        let r = split_records(s.drop_last(), c);
        r.update(r.len() - 1, r.last().push(s.last()))
    }
}

/// One record per delimiter, plus the open trailing record.
pub open spec fn num_records(s: Seq<u8>, c: u8) -> int {
    delim_positions(s, c).len() as int + 1
}

/// First offset of record `j`: the start of the stream, or one past the
/// delimiter that closed the previous record.
pub open spec fn record_start(s: Seq<u8>, c: u8, j: int) -> int {
    if j == 0 {
        0
    } else {
        delim_positions(s, c)[j - 1] + 1
    }
}

/// One past the last offset of record `j`: the delimiter that closes it, or
/// the end of the stream for the trailing record.
pub open spec fn record_end(s: Seq<u8>, c: u8, j: int) -> int {
    if j < delim_positions(s, c).len() {
        delim_positions(s, c)[j]
    } else {
        s.len() as int
    }
}

/// The record list is never empty.
pub proof fn lemma_split_nonempty(s: Seq<u8>, c: u8)
    ensures
        split_records(s, c).len() >= 1,
    decreases s.len(),
{
    if s.len() > 0 {
        lemma_split_nonempty(s.drop_last(), c);
    }
}

/// No record contains the record delimiter.
pub proof fn lemma_records_no_delim(s: Seq<u8>, c: u8)
    ensures
        forall|j: int, i: int|
            0 <= j < split_records(s, c).len() && 0 <= i < split_records(s, c)[j].len()
                ==> #[trigger] split_records(s, c)[j][i] != c,
    decreases s.len(),
{
    if s.len() > 0 {
        let d = s.drop_last();
        lemma_records_no_delim(d, c);
        lemma_split_nonempty(d, c);
        assert forall|j: int, i: int|
            0 <= j < split_records(s, c).len() && 0 <= i < split_records(s, c)[j].len() implies #[trigger] split_records(
            s,
            c,
        )[j][i] != c by {
            if s.last() == c {
                if j < split_records(d, c).len() {
                    assert(split_records(s, c)[j] == split_records(d, c)[j]);
                }
            } else {
                if j < split_records(d, c).len() - 1 {
                    assert(split_records(s, c)[j] == split_records(d, c)[j]);
                } else {
                    assert(split_records(s, c)[j] == split_records(d, c)[j].push(s.last()));
                }
            }
        }
    }
}

/// Splitting a delimiter-free sequence yields that sequence as the single
/// open record.
pub proof fn lemma_split_no_delim(s: Seq<u8>, c: u8)
    requires
        forall|i: int| 0 <= i < s.len() ==> s[i] != c,
    ensures
        split_records(s, c) =~~= seq![s],
    decreases s.len(),
{
    if s.len() > 0 {
        lemma_split_no_delim(s.drop_last(), c);
        assert(split_records(s, c)[0] =~= s);
    }
}

/// Chunked splitting: processing `b` after `a` is the same as processing
/// `a`, keeping its open trailing record as a residual, and splitting the
/// residual followed by `b`. This is what lets a scheduler cut the stream
/// into chunks at arbitrary offsets.
pub proof fn lemma_split_append(a: Seq<u8>, b: Seq<u8>, c: u8)
    ensures
        split_records(a + b, c) =~~= split_records(a, c).drop_last() + split_records(
            split_records(a, c).last() + b,
            c,
        ),
    decreases b.len(),
{
    lemma_split_nonempty(a, c);
    let la = split_records(a, c).last();
    if b.len() == 0 {
        assert(a + b =~= a);
        assert(la + b =~= la);
        lemma_records_no_delim(a, c);
        lemma_split_no_delim(la, c);
        assert(split_records(a, c).drop_last() + seq![la] =~~= split_records(a, c));
    } else {
        let bd = b.drop_last();
        lemma_split_append(a, bd, c);
        lemma_split_nonempty(la + bd, c);
        assert((a + b).drop_last() =~= a + bd);
        assert((la + b).drop_last() =~= la + bd);
        assert((a + b).last() == b.last());
        assert((la + b).last() == b.last());
        let x = split_records(a, c).drop_last();
        let y = split_records(la + bd, c);
        if b.last() == c {
            assert(split_records(a + b, c) =~~= split_records(a + bd, c).push(Seq::empty()));
            assert(split_records(la + b, c) =~~= y.push(Seq::empty()));
            assert((x + y).push(Seq::<u8>::empty()) =~~= x + y.push(Seq::empty()));
        } else {
            let r = split_records(a + bd, c);
            assert(r =~~= x + y);
            assert(r.last() == y.last());
            assert(split_records(a + b, c) =~~= r.update(r.len() - 1, r.last().push(b.last())));
            assert(split_records(la + b, c) =~~= y.update(y.len() - 1, y.last().push(b.last())));
            assert((x + y).update(x.len() + y.len() - 1, y.last().push(b.last())) =~~= x + y.update(
                y.len() - 1,
                y.last().push(b.last()),
            ));
        }
    }
}

/// Each record is the subrange of `s` between its bounding delimiters, and
/// there are `count_byte(s, c) + 1` of them.
pub proof fn lemma_split_structure(s: Seq<u8>, c: u8)
    ensures
        split_records(s, c).len() == num_records(s, c),
        num_records(s, c) == count_byte(s, c) + 1,
        forall|j: int|
            0 <= j < num_records(s, c) ==> #[trigger] split_records(s, c)[j] == s.subrange(
                record_start(s, c, j),
                record_end(s, c, j),
            ),
    decreases s.len(),
{
    lemma_positions_count(s, c);
    lemma_positions_characterize(s, c);
    if s.len() == 0 {
        assert(split_records(s, c)[0] =~= s.subrange(0, 0));
    } else {
        let d = s.drop_last();
        lemma_split_structure(d, c);
        lemma_positions_characterize(d, c);
        let p = delim_positions(s, c);
        let q = delim_positions(d, c);
        let m = q.len() as int;
        assert forall|j: int| 0 <= j < num_records(s, c) implies #[trigger] split_records(s, c)[j]
            == s.subrange(record_start(s, c, j), record_end(s, c, j)) by {
            if s.last() == c {
                // positions gain the final offset; the old open record is
                // closed by it and an empty open record is appended
                if j < m {
                    assert(split_records(s, c)[j] == split_records(d, c)[j]);
                    assert(record_start(s, c, j) == record_start(d, c, j));
                    assert(record_end(s, c, j) == record_end(d, c, j));
                    assert(d.subrange(record_start(d, c, j), record_end(d, c, j)) =~= s.subrange(
                        record_start(s, c, j),
                        record_end(s, c, j),
                    ));
                } else if j == m {
                    assert(split_records(s, c)[j] == split_records(d, c)[j]);
                    assert(record_start(s, c, j) == record_start(d, c, j));
                    assert(record_end(s, c, j) == s.len() - 1);
                    assert(d.subrange(record_start(d, c, j), d.len() as int) =~= s.subrange(
                        record_start(s, c, j),
                        s.len() - 1,
                    ));
                } else {
                    assert(j == m + 1);
                    assert(split_records(s, c)[j] =~= Seq::<u8>::empty());
                    assert(record_start(s, c, j) == s.len() as int);
                    assert(s.subrange(s.len() as int, s.len() as int) =~= Seq::<u8>::empty());
                }
            } else {
                // positions are unchanged; the open record is extended
                assert(p == q);
                if j < m {
                    assert(split_records(s, c)[j] == split_records(d, c)[j]);
                    assert(d.subrange(record_start(d, c, j), record_end(d, c, j)) =~= s.subrange(
                        record_start(s, c, j),
                        record_end(s, c, j),
                    ));
                } else {
                    assert(j == m);
                    assert(split_records(s, c)[j] == split_records(d, c)[j].push(s.last()));
                    assert(d.subrange(record_start(d, c, j), d.len() as int).push(s.last())
                        =~= s.subrange(record_start(s, c, j), s.len() as int));
                }
            }
        }
    }
}

} // verus!
