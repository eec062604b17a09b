use microbench::lines::{gen_lines, parse_lines, render_lines, split_parse};

#[test]
fn render_exact_bytes() {
    let nums = vec![0u64, 42, 18446744073709551615];
    let blob = render_lines(&nums);
    assert_eq!(blob, b"0\n42\n18446744073709551615\n".to_vec());
}

#[test]
fn round_trip_generated_blob() {
    let (nums, blob) = gen_lines(7);
    assert_eq!(nums.len(), 7);
    assert_eq!(split_parse(&blob), nums);
    assert_eq!(parse_lines(&blob), Some(nums));
}

#[test]
fn round_trip_fixed_values() {
    let nums = vec![1u64, 0, 999, 10, 18446744073709551615, 7];
    let blob = render_lines(&nums);
    assert_eq!(split_parse(&blob), nums);
    assert_eq!(parse_lines(&blob), Some(nums));
}

#[test]
fn empty_blob_parses_to_nothing() {
    let (nums, blob) = gen_lines(0);
    assert!(nums.is_empty());
    assert!(blob.is_empty());
    assert_eq!(split_parse(&blob), Vec::<u64>::new());
    assert_eq!(parse_lines(&blob), Some(Vec::new()));
}

#[test]
fn split_discards_unparsable_fragments() {
    assert_eq!(split_parse(&b"12\n7\n".to_vec()), vec![12, 7]);
    assert_eq!(split_parse(&b"12\n7".to_vec()), vec![12, 7]);
    assert_eq!(split_parse(&b"9x\n5\n".to_vec()), vec![5]);
    assert_eq!(split_parse(&b"\n\n".to_vec()), Vec::<u64>::new());
}

#[test]
fn sequencing_parser_demands_exact_shape() {
    assert_eq!(parse_lines(&b"12\n7\n".to_vec()), Some(vec![12, 7]));
    assert_eq!(parse_lines(&b"12\n7".to_vec()), None);
    assert_eq!(parse_lines(&b"abc\n".to_vec()), None);
    assert_eq!(parse_lines(&b"\n".to_vec()), None);
    assert_eq!(parse_lines(&b"12x\n".to_vec()), None);
}

#[test]
fn parsers_reject_overflowing_values() {
    // one beyond u64::MAX
    let blob = b"18446744073709551616\n".to_vec();
    assert_eq!(parse_lines(&blob), None);
    assert_eq!(split_parse(&blob), Vec::<u64>::new());
    // exactly u64::MAX parses
    let blob = b"18446744073709551615\n".to_vec();
    assert_eq!(parse_lines(&blob), Some(vec![u64::MAX]));
    assert_eq!(split_parse(&blob), vec![u64::MAX]);
}
