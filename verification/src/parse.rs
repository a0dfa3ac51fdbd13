//! Unsigned-decimal field parsing, as the field-parsing kernel performs it:
//! a field is the span of bytes from a record's start to the first field
//! delimiter or record delimiter, and parses to its base-10 value. A span
//! holding any non-digit byte parses to the `MALFORMED_FIELD` sentinel; an
//! over-long digit run wraps modulo 2^32, matching the unchecked device
//! arithmetic.

use vstd::arithmetic::div_mod::lemma_fundamental_div_mod;
use vstd::prelude::*;

verus! {

/// Failure sentinel for a field holding a non-digit byte. It is the maximum
/// representable value, distinct from the no-terminator sentinels.
pub const MALFORMED_FIELD: u32 = u32::MAX;

/// Base of the failure sentinel for a scan that ran out of input without
/// finding a field or record delimiter: the reported value is this base plus
/// the start offset of the scan, so the failing offset can be recovered.
pub const NO_TERMINATOR_BASE: u32 = 1111000000;

/// ASCII `'0'` through `'9'`.
pub open spec fn is_ascii_digit(b: u8) -> bool {
    48 <= b && b <= 57
}

pub open spec fn all_digits(s: Seq<u8>) -> bool {
    forall|i: int| 0 <= i < s.len() ==> is_ascii_digit(#[trigger] s[i])
}

/// Base-10 value of a digit string, accumulated left to right and wrapping
/// modulo 2^32.
pub open spec fn digits_value(s: Seq<u8>) -> u32
    decreases s.len(),
{
    if s.len() == 0 {
        0
    } else {
        (((digits_value(s.drop_last()) as int) * 10 + (s.last() as int - 48))
            % 0x1_0000_0000) as u32
    }
}

/// What a field span parses to: its wrapped base-10 value when it holds only
/// digits (an empty span parses to 0), and `MALFORMED_FIELD` otherwise.
pub open spec fn parse_u32_spec(s: Seq<u8>) -> u32 {
    if all_digits(s) {
        digits_value(s)
    } else {
        MALFORMED_FIELD
    }
}

/// Parses `input[start_offset..end_offset]` as an unsigned base-10 integer.
/// Any non-digit byte in the span short-circuits to `MALFORMED_FIELD`; a
/// digit run longer than 10 digits wraps modulo 2^32.
pub fn parse_u32(input: &[u8], start_offset: usize, end_offset: usize) -> (r: u32)
    requires
        start_offset <= end_offset <= input@.len(),
    ensures
        r == parse_u32_spec(input@.subrange(start_offset as int, end_offset as int)),
{
    let ghost f = input@.subrange(start_offset as int, end_offset as int);
    let mut val: u32 = 0;
    let mut i: usize = start_offset;
    proof {
        assert(f.take(0) =~= Seq::<u8>::empty());
    }
    while i < end_offset
        invariant
            start_offset <= i <= end_offset <= input@.len(),
            f == input@.subrange(start_offset as int, end_offset as int),
            all_digits(f.take(i - start_offset)),
            val == digits_value(f.take(i - start_offset)),
        decreases end_offset - i,
    {
        let b = input[i];
        proof {
            assert(f[i - start_offset] == b);
        }
        if b < 48 || b > 57 {
            proof {
                assert(!is_ascii_digit(f[i - start_offset]));
            }
            return MALFORMED_FIELD;
        }
        let t: u64 = ((val as u64) * 10 + ((b - 48) as u64)) % 0x1_0000_0000;
        proof {
            let k = i - start_offset;
            assert(f.take(k + 1).drop_last() =~= f.take(k));
            assert(f.take(k + 1).last() == b);
        }
        val = t as u32;
        i = i + 1;
    }
    proof {
        assert(f.take(end_offset - start_offset) =~= f);
    }
    val
}

/// Index in `r` of the first byte equal to `fd` or `rd`; `r.len()` when
/// neither occurs. This is the scan a parsing thread runs from a record
/// start to find the end of the record's first field.
pub open spec fn first_term_index(r: Seq<u8>, fd: u8, rd: u8) -> int
    decreases r.len(),
{
    if r.len() == 0 {
        0
    } else if r.first() == fd || r.first() == rd {
        0
    } else {
        1 + first_term_index(r.drop_first(), fd, rd)
    }
}

pub proof fn lemma_first_term_index(r: Seq<u8>, fd: u8, rd: u8)
    ensures
        0 <= first_term_index(r, fd, rd) <= r.len(),
        forall|k: int| 0 <= k < first_term_index(r, fd, rd) ==> r[k] != fd && r[k] != rd,
        first_term_index(r, fd, rd) < r.len() ==> (r[first_term_index(r, fd, rd)] == fd || r[
            first_term_index(r, fd, rd)
        ] == rd),
    decreases r.len(),
{
    if r.len() > 0 && r.first() != fd && r.first() != rd {
        lemma_first_term_index(r.drop_first(), fd, rd);
        assert forall|k: int| 0 <= k < first_term_index(r, fd, rd) implies r[k] != fd && r[k]
            != rd by {
            if k > 0 {
                assert(r.drop_first()[k - 1] == r[k]);
            }
        }
    }
}

/// The scan over a concatenation stops in the first part when it can, and
/// otherwise continues into the second.
pub proof fn lemma_first_term_append(x: Seq<u8>, y: Seq<u8>, fd: u8, rd: u8)
    ensures
        first_term_index(x + y, fd, rd) == if first_term_index(x, fd, rd) < x.len() {
            first_term_index(x, fd, rd)
        } else {
            x.len() + first_term_index(y, fd, rd)
        },
    decreases x.len(),
{
    if x.len() == 0 {
        assert(x + y =~= y);
    } else {
        lemma_first_term_append(x.drop_first(), y, fd, rd);
        assert((x + y).len() > 0);
        assert((x + y).first() == x.first());
        assert((x + y).drop_first() =~= x.drop_first() + y);
    }
}

/// Whether the field scan finds a terminator inside `r` itself.
pub open spec fn has_field_terminator(r: Seq<u8>, fd: u8, rd: u8) -> bool {
    first_term_index(r, fd, rd) < r.len()
}

/// The first field of a record: its bytes up to the first field delimiter,
/// or the whole record when it holds none.
pub open spec fn first_field(r: Seq<u8>, fd: u8, rd: u8) -> Seq<u8> {
    r.take(first_term_index(r, fd, rd))
}

/// Parsed value of a record that a record delimiter closed: the scan for the
/// field's end stops inside the record or, at the latest, on the closing
/// delimiter that follows it, so the value depends on the record alone.
pub open spec fn complete_record_value(r: Seq<u8>, fd: u8, rd: u8) -> u32 {
    parse_u32_spec(first_field(r, fd, rd))
}

/// Parsed value of the final, unterminated record: parsed like any other
/// when a field delimiter closes its field; the no-terminator sentinel (at
/// scan start 0) when the input ends first.
pub open spec fn final_record_value(r: Seq<u8>, fd: u8, rd: u8) -> u32 {
    if has_field_terminator(r, fd, rd) {
        parse_u32_spec(first_field(r, fd, rd))
    } else {
        NO_TERMINATOR_BASE
    }
}

/// A first field holding any non-digit byte parses to the malformed-field
/// sentinel, never to a plausible value.
pub proof fn lemma_malformed_field_sentinel(r: Seq<u8>, fd: u8, rd: u8, i: int)
    requires
        0 <= i < first_term_index(r, fd, rd),
        !is_ascii_digit(r[i]),
    ensures
        complete_record_value(r, fd, rd) == MALFORMED_FIELD,
{
    lemma_first_term_index(r, fd, rd);
    assert(first_field(r, fd, rd)[i] == r[i]);
    assert(!all_digits(first_field(r, fd, rd)));
}

/// Decimal digit string of `n`, most significant digit first.
pub open spec fn dec_digits(n: nat) -> Seq<u8>
    decreases n,
{
    if n < 10 {
        seq![(48 + n) as u8]
    } else {
        dec_digits(n / 10).push((48 + n % 10) as u8)
    }
}

pub proof fn lemma_dec_digits_are_digits(n: nat)
    ensures
        all_digits(dec_digits(n)),
        dec_digits(n).len() >= 1,
    decreases n,
{
    if n >= 10 {
        lemma_dec_digits_are_digits(n / 10);
        let d = dec_digits(n);
        assert forall|i: int| 0 <= i < d.len() implies is_ascii_digit(#[trigger] d[i]) by {
            if i < d.len() - 1 {
                assert(d[i] == dec_digits(n / 10)[i]);
            }
        }
    }
}

/// Rendering a value in decimal and parsing it back returns the value.
pub proof fn lemma_parse_dec_digits(n: nat)
    requires
        n <= u32::MAX,
    ensures
        parse_u32_spec(dec_digits(n)) == n,
    decreases n,
{
    lemma_dec_digits_are_digits(n);
    if n < 10 {
        let d = dec_digits(n);
        assert(d.drop_last() =~= Seq::<u8>::empty());
        assert(digits_value(d.drop_last()) == 0);
        assert(d.last() as int - 48 == n);
        assert(digits_value(d) == (n as int % 0x1_0000_0000) as u32);
    } else {
        lemma_parse_dec_digits(n / 10);
        let d = dec_digits(n);
        assert(d.drop_last() =~= dec_digits(n / 10));
        assert(digits_value(d.drop_last()) == n / 10);
        assert(d.last() as int - 48 == n % 10);
        assert((n / 10) as int * 10 + (n % 10) as int == n as int) by {
            lemma_fundamental_div_mod(n as int, 10);
        }
        assert(digits_value(d) == (n as int % 0x1_0000_0000) as u32);
    }
}

} // verus!
