use nvparse_rs::count::{count_char, cpu_count_char};
use nvparse_rs::pipeline::{run_pipeline, Producer, Scheduler};
use nvparse_rs::pool::BufferPool;

const TPW: u32 = 4;
const MAX_WG: u32 = 8;

#[test]
fn boundary_example_one_chunk() {
    // the whole input in one chunk, one workgroup of one thread:
    // two delimiters, first-column values 12 and 56
    let input = b"12|34\n56|78\n";
    let (count, values) = run_pipeline(input, b'\n', b'|', input.len(), 1, 1, 1);
    assert_eq!(count, 2);
    assert_eq!(values, vec![12, 56]);
}

#[test]
fn empty_input_terminates_with_nothing() {
    let (count, values) = run_pipeline(b"", b'\n', b'|', 4, 2, TPW, MAX_WG);
    assert_eq!(count, 0);
    assert_eq!(values, Vec::<u32>::new());
}

#[test]
fn partition_invariance_across_capacities_and_pools() {
    // for every chunk capacity and pool size, the run returns the
    // sequential scan's count and the same values
    let input = b"10|a\n20|b\n30|c\n4099|\nxx|y\n";
    let seq_count = cpu_count_char(input, b'\n');
    let reference = run_pipeline(input, b'\n', b'|', input.len(), 1, TPW, MAX_WG);
    assert_eq!(reference.0, seq_count);
    assert_eq!(reference.1, vec![10, 20, 30, 4099, u32::MAX]);
    for capacity in [1usize, 2, 3, 5, 7, 11, 26, 100] {
        for pool_size in [1usize, 2, 8] {
            let (count, values) =
                run_pipeline(input, b'\n', b'|', capacity, pool_size, TPW, MAX_WG);
            assert_eq!(count, seq_count);
            assert_eq!(values, reference.1);
        }
    }
}

#[test]
fn round_trip_numeric_fields() {
    // a synthetic stream of well-formed numeric fields parses back to the
    // written values, in order
    let values: Vec<u32> = vec![123, 4567, 0, 42, u32::MAX, 1];
    let mut input: Vec<u8> = Vec::new();
    for v in &values {
        input.extend_from_slice(v.to_string().as_bytes());
        input.push(b'\n');
    }
    for capacity in [1usize, 4, input.len()] {
        let (count, parsed) = run_pipeline(&input, b'\n', b'|', capacity, 2, TPW, MAX_WG);
        assert_eq!(count as usize, values.len());
        assert_eq!(parsed, values);
    }
}

#[test]
fn malformed_field_yields_sentinel() {
    // a field holding a non-digit byte comes out as the sentinel, never a
    // plausible value
    let (count, values) = run_pipeline(b"12a4\n7\n", b'\n', b'|', 3, 1, TPW, MAX_WG);
    assert_eq!(count, 2);
    assert_eq!(values, vec![u32::MAX, 7]);
}

#[test]
fn unterminated_trailing_record_is_flushed() {
    // no delimiter at all: the flush scans the lone open record and finds
    // no terminator, yielding the offset-encoding sentinel
    let (count, values) = run_pipeline(b"123", b'\n', b'|', 2, 1, TPW, MAX_WG);
    assert_eq!(count, 0);
    assert_eq!(values, vec![1111000000]);

    // a trailing record whose field is closed by the field delimiter
    // parses normally
    let (count, values) = run_pipeline(b"5\n77|rest", b'\n', b'|', 4, 1, TPW, MAX_WG);
    assert_eq!(count, 1);
    assert_eq!(values, vec![5, 77]);
}

#[test]
fn records_straddling_chunks_are_joined() {
    // capacity 4 cuts "1234567|x\n" mid-record; the residual carries the
    // head of the record to the next chunk
    let (count, values) = run_pipeline(b"1234567|x\n89|\n", b'\n', b'|', 4, 1, TPW, MAX_WG);
    assert_eq!(count, 2);
    assert_eq!(values, vec![1234567, 89]);
}

#[test]
fn count_char_picks_a_path_and_counts() {
    // small input relative to the thread count: the sequential path
    assert_eq!(count_char(65535, b"a\nb\n", b'\n'), Ok(2));
    // enough parallelism: the partitioned path
    assert_eq!(count_char(2, b"a\nb\nc\nd\n", b'\n'), Ok(4));
    assert_eq!(count_char(1, b"\n\n", b'\n'), Ok(2));
    assert_eq!(count_char(3, b"", b'\n'), Ok(0));
}

#[test]
fn producer_walks_in_capacity_steps() {
    let mut p = Producer::new(10, 4);
    assert_eq!(p.next_chunk(), Some((0, 4)));
    assert_eq!(p.next_chunk(), Some((4, 8)));
    assert_eq!(p.next_chunk(), Some((8, 10)));
    assert_eq!(p.next_chunk(), None);
    assert_eq!(p.next_chunk(), None);

    let mut p = Producer::new(0, 3);
    assert_eq!(p.next_chunk(), None);
}

#[test]
fn scheduler_accumulates_across_chunks() {
    let mut s = Scheduler::new(b'\n', b'|');
    s.process_chunk(b"12|3", TPW, MAX_WG);
    assert_eq!(s.total, 0);
    s.process_chunk(b"4\n56|78\n", TPW, MAX_WG);
    assert_eq!(s.total, 2);
    let (count, values) = s.finish();
    assert_eq!(count, 2);
    assert_eq!(values, vec![12, 56]);
}

#[test]
fn pool_exhaustion_single_buffer() {
    // with one buffer, a second acquire cannot succeed before the release
    let mut pool = BufferPool::new(1, 16);
    let first = pool.acquire();
    assert_eq!(first, Some(0));
    assert_eq!(pool.acquire(), None);
    assert_eq!(pool.acquire(), None);
    pool.release(0);
    assert_eq!(pool.acquire(), Some(0));

    // and a run that needs three or more chunks still completes with it
    let input = b"1\n2\n3\n4\n5\n";
    let (count, values) = run_pipeline(input, b'\n', b'|', 3, 1, TPW, MAX_WG);
    assert_eq!(count, 5);
    assert_eq!(values, vec![1, 2, 3, 4, 5]);
}

#[test]
fn pool_hands_out_distinct_buffers() {
    let mut pool = BufferPool::new(3, 8);
    let a = pool.acquire().unwrap();
    let b = pool.acquire().unwrap();
    let c = pool.acquire().unwrap();
    assert!(a != b && b != c && a != c);
    assert_eq!(pool.acquire(), None);
    pool.release(b);
    assert_eq!(pool.acquire(), Some(b));
}

#[test]
fn pool_buffers_carry_filled_bytes() {
    let mut pool = BufferPool::new(2, 8);
    let id = pool.acquire().unwrap();
    pool.fill(id, b"abc");
    assert_eq!(pool.buffer_bytes(id).as_slice(), b"abc");
    pool.fill(id, b"xy");
    assert_eq!(pool.buffer_bytes(id).as_slice(), b"xy");
}
