use nvparse_rs::bindings::{countchar_layout, getcharpos_layout, parsecsv_layout, BindingKind};
use nvparse_rs::count::{count_char_ranges, cpu_count_char, exclusive_prefix_sums, reduce_counts};
use nvparse_rs::charpos::get_char_pos;
use nvparse_rs::csv::{parse_csv, parse_record};
use nvparse_rs::dispatch::compute_dispatch;
use nvparse_rs::parse::parse_u32;

#[test]
fn cpu_count_char_counts_newlines() {
    assert_eq!(cpu_count_char(b"12|34\n56|78\n", b'\n'), 2);
    assert_eq!(cpu_count_char(b"12|34\n56|78\n", b'|'), 2);
    assert_eq!(cpu_count_char(b"", b'\n'), 0);
    assert_eq!(cpu_count_char(b"\n\n\n", b'\n'), 3);
    assert_eq!(cpu_count_char(b"abc", b'\n'), 0);
}

#[test]
fn count_ranges_partition_sums_to_scan() {
    // partition invariance at the kernel level: any per-thread span that
    // covers the data gives slot counts that sum to the sequential scan
    let data = b"a\nbb\n\nccc\nd";
    for (cs, n) in [(1usize, 11usize), (2, 6), (3, 4), (4, 3), (11, 1), (5, 3)] {
        assert!(cs * n >= data.len());
        let counts = count_char_ranges(data, b'\n', cs, n);
        assert_eq!(counts.len(), n);
        let total = reduce_counts(&counts);
        assert_eq!(total, cpu_count_char(data, b'\n'));
    }
}

#[test]
fn count_ranges_slots_are_per_thread() {
    // 2 bytes per thread over "a\nb\nc\n": slots count their own ranges
    let counts = count_char_ranges(b"a\nb\nc\n", b'\n', 2, 3);
    assert_eq!(counts, vec![1, 1, 1]);
    let counts = count_char_ranges(b"\n\nabcd", b'\n', 3, 2);
    assert_eq!(counts, vec![2, 0]);
}

#[test]
fn prefix_sums_are_exclusive() {
    let counts: Vec<u32> = vec![2, 0, 3, 1];
    let pre = exclusive_prefix_sums(&counts);
    assert_eq!(pre, vec![0, 2, 2, 5]);
}

#[test]
fn char_positions_are_ascending_offsets() {
    // delimiters of "a\nb\n\nc" sit at offsets 1, 3, 4; the compacted
    // output is the header cell and each offset plus one
    let data = b"a\nb\n\nc";
    let cs = 2usize;
    let n = 3usize;
    let counts = count_char_ranges(data, b'\n', cs, n);
    let total = reduce_counts(&counts);
    let prefix = exclusive_prefix_sums(&counts);
    let pos = get_char_pos(data, b'\n', cs, n, &prefix, total);
    assert_eq!(pos, vec![0, 2, 4, 5]);
}

#[test]
fn char_positions_complete_no_duplicates() {
    // every delimiter offset is recorded exactly once, whatever the span
    let data = b"\nxy\nz\n\n";
    for (cs, n) in [(1usize, 7usize), (2, 4), (7, 1), (3, 3)] {
        let counts = count_char_ranges(data, b'\n', cs, n);
        let total = reduce_counts(&counts);
        let prefix = exclusive_prefix_sums(&counts);
        let pos = get_char_pos(data, b'\n', cs, n, &prefix, total);
        assert_eq!(pos, vec![0, 1, 4, 6, 7]);
    }
}

#[test]
fn parse_u32_parses_decimal_spans() {
    assert_eq!(parse_u32(b"12345", 0, 5), 12345);
    assert_eq!(parse_u32(b"xx42yy", 2, 4), 42);
    assert_eq!(parse_u32(b"007", 0, 3), 7);
    assert_eq!(parse_u32(b"4294967295", 0, 10), u32::MAX);
}

#[test]
fn parse_u32_empty_span_is_zero() {
    assert_eq!(parse_u32(b"abc", 1, 1), 0);
    assert_eq!(parse_u32(b"", 0, 0), 0);
}

#[test]
fn parse_u32_malformed_is_sentinel() {
    // any non-digit byte in the span short-circuits to the sentinel
    assert_eq!(parse_u32(b"12a4", 0, 4), u32::MAX);
    assert_eq!(parse_u32(b"-1", 0, 2), u32::MAX);
    assert_eq!(parse_u32(b" 1", 0, 2), u32::MAX);
    assert_eq!(parse_u32(b"1 ", 0, 2), u32::MAX);
}

#[test]
fn parse_u32_overlong_run_wraps() {
    // 2^32 wraps to 0; an 11-digit run wraps modulo 2^32
    assert_eq!(parse_u32(b"4294967296", 0, 10), 0);
    let expected = (99999999999u64 % (1u64 << 32)) as u32;
    assert_eq!(parse_u32(b"99999999999", 0, 11), expected);
}

#[test]
fn parse_record_stops_at_field_or_record_delimiter() {
    assert_eq!(parse_record(b"12|34\n", 0, b'|', b'\n'), 12);
    assert_eq!(parse_record(b"12|34\n56|78\n", 6, b'|', b'\n'), 56);
    // a field closed by the record delimiter parses whole
    assert_eq!(parse_record(b"345\n", 0, b'|', b'\n'), 345);
}

#[test]
fn parse_record_no_terminator_sentinel_encodes_start() {
    assert_eq!(parse_record(b"123", 0, b'|', b'\n'), 1111000000);
    assert_eq!(parse_record(b"xx12", 2, b'|', b'\n'), 1111000002);
}

#[test]
fn parse_csv_parses_each_record_start() {
    // record starts of "12|34\n56|78\n" are 0 and 6; the trailing start 12
    // (one past the final delimiter) is the open record and is skipped
    let starts: Vec<u32> = vec![0, 6, 12];
    let parsed = parse_csv(b"12|34\n56|78\n", &starts, b'|', b'\n');
    assert_eq!(parsed, vec![12, 56]);
}

#[test]
fn dispatch_covers_the_chunk() {
    let p = compute_dispatch(10, 4, 2);
    // one more workgroup than 10/4 would be 3; the device cap wins
    assert_eq!(p.n_workgroups, 2);
    assert_eq!(p.chunk_size, 2);
    assert_eq!(p.data_len, 10);
    assert_eq!(p.threads_per_workgroup, 4);
    assert!(p.n_workgroups as u64 * p.threads_per_workgroup as u64 * p.chunk_size as u64 >= 10);

    let p = compute_dispatch(0, 256, 65535);
    assert_eq!(p.n_workgroups, 1);
    assert!(p.chunk_size >= 1);

    let p = compute_dispatch(1000, 256, 65535);
    assert!(p.n_workgroups <= 65535);
    assert!(p.n_workgroups as u64 * p.threads_per_workgroup as u64 * p.chunk_size as u64 >= 1000);
}

#[test]
fn kernel_layouts_declare_ordered_bindings() {
    let cc = countchar_layout();
    assert_eq!(cc.bindings.len(), 5);
    assert_eq!(cc.bindings[0].kind, BindingKind::StorageBuffer);
    assert_eq!(cc.bindings[1].kind, BindingKind::UniformBuffer);
    assert_eq!(cc.bindings[4].kind, BindingKind::StorageBuffer);
    for (i, b) in cc.bindings.iter().enumerate() {
        assert_eq!(b.index as usize, i);
    }
    assert_eq!((cc.threads_x, cc.threads_y, cc.threads_z), (256, 1, 1));

    let gp = getcharpos_layout();
    assert_eq!(gp.bindings.len(), 6);
    for (i, b) in gp.bindings.iter().enumerate() {
        assert_eq!(b.index as usize, i);
    }

    let pc = parsecsv_layout();
    assert_eq!(pc.bindings.len(), 8);
    assert_eq!(pc.bindings[2].kind, BindingKind::StorageBuffer);
    assert_eq!(pc.bindings[4].kind, BindingKind::UniformBuffer);
    for (i, b) in pc.bindings.iter().enumerate() {
        assert_eq!(b.index as usize, i);
    }
}
