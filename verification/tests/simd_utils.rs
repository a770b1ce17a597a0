use aether::simd_utils::{
    classify_chars_simd, count_newlines_simd, find_byte_simd, line_length_simd,
    skip_whitespace_simd, starts_with_simd,
};

#[test]
fn test_count_newlines_simd() {
    let data = b"line1\nline2\nline3\n";
    assert_eq!(count_newlines_simd(data), 3);

    let data2 = b"no newlines here";
    assert_eq!(count_newlines_simd(data2), 0);

    let data3 = b"\n\n\n";
    assert_eq!(count_newlines_simd(data3), 3);
}

#[test]
fn test_find_byte_simd() {
    let data = b"hello world\nfoo";
    assert_eq!(find_byte_simd(data, b'\n'), Some(11));
    assert_eq!(find_byte_simd(data, b'x'), None);
    assert_eq!(find_byte_simd(data, b'h'), Some(0));
}

#[test]
fn test_skip_whitespace_simd() {
    let data = b"   \t\t  hello";
    assert_eq!(skip_whitespace_simd(data, 0), 7);

    let data2 = b"hello";
    assert_eq!(skip_whitespace_simd(data2, 0), 0);
}

#[test]
fn test_starts_with_simd() {
    assert!(starts_with_simd(b"hello world", b"hello"));
    assert!(!starts_with_simd(b"hello world", b"world"));
    assert!(starts_with_simd(b"fn main()", b"fn"));
}

#[test]
fn test_large_file_newlines() {
    let mut data = Vec::with_capacity(10000);
    for i in 0..1000 {
        data.extend_from_slice(format!("line {}\n", i).as_bytes());
    }

    let simd_count = count_newlines_simd(&data);
    let scalar_count = data.iter().filter(|&&b| b == b'\n').count() as u32;
    assert_eq!(simd_count, scalar_count);
}

#[test]
fn newline_followed_by_vertical_tab_counts_once() {
    // A 0x0B byte right after a newline must not be counted as a newline.
    let data = [b'\n', 0x0b, 0x0b, b'a', b'\n', 0x0b, b'b', b'c', b'd', b'\n'];
    assert_eq!(count_newlines_simd(&data), 3);
    let chunk = [0x0b, b'\n', 0x0b, 0x0b, 0x0b, 0x0b, 0x0b, 0x0b];
    assert_eq!(count_newlines_simd(&chunk), 1);
}

#[test]
fn count_newlines_matches_scalar_count_on_mixed_bytes() {
    let data: Vec<u8> = (0..517u32).map(|i| ((i * 37 + 11) % 23) as u8).collect();
    let scalar = data.iter().filter(|&&b| b == b'\n').count() as u32;
    assert_eq!(count_newlines_simd(&data), scalar);
    assert_eq!(count_newlines_simd(&[]), 0);
}

#[test]
fn find_byte_reports_the_first_match_in_later_chunks() {
    let mut data = vec![b'a'; 40];
    data[19] = b'z';
    data[33] = b'z';
    assert_eq!(find_byte_simd(&data, b'z'), Some(19));
    data[19] = b'a';
    assert_eq!(find_byte_simd(&data, b'z'), Some(33));
    // A byte 0x01 after the target must not hide or move the match.
    let data2 = [b'q', b'q', 0u8, 1u8, 1u8, b'q', b'q', b'q', b'q'];
    assert_eq!(find_byte_simd(&data2, 0), Some(2));
    assert_eq!(find_byte_simd(&data2, 1), Some(3));
    assert_eq!(find_byte_simd(&[], 1), None);
}

#[test]
fn skip_whitespace_crosses_whole_blank_words() {
    let mut data = vec![b' '; 20];
    data.extend_from_slice(b"\t\r x");
    assert_eq!(skip_whitespace_simd(&data, 0), 23);
    assert_eq!(skip_whitespace_simd(&data, 5), 23);
    let blanks = vec![b'\t'; 17];
    assert_eq!(skip_whitespace_simd(&blanks, 0), 17);
    // Newlines are not skipped.
    assert_eq!(skip_whitespace_simd(b"  \n  ", 0), 2);
    // A start past the end is returned unchanged.
    assert_eq!(skip_whitespace_simd(b"ab", 9), 9);
}

#[test]
fn starts_with_compares_every_byte() {
    assert!(starts_with_simd(b"abcdefghij", b"abcdefghij"));
    assert!(!starts_with_simd(b"abcdefghij", b"abcdefghiX"));
    assert!(!starts_with_simd(b"abcdefghij", b"abcXefgh"));
    assert!(starts_with_simd(b"abc", b""));
    assert!(!starts_with_simd(b"ab", b"abc"));
}

#[test]
fn line_length_stops_at_newline_or_end() {
    let data = b"first line\nsecond";
    assert_eq!(line_length_simd(data, 0), 10);
    assert_eq!(line_length_simd(data, 11), 6);
    assert_eq!(line_length_simd(data, 10), 0);
    assert_eq!(line_length_simd(data, data.len()), 0);
}

#[test]
fn classify_chars_marks_each_byte() {
    let data = b"ab_9 \tZ+\n0xy";
    let mut out = [9u8; 14];
    classify_chars_simd(data, 0, &mut out);
    assert_eq!(&out[..12], &[1, 1, 1, 2, 3, 3, 1, 0, 3, 2, 1, 1]);
    assert_eq!(&out[12..], &[9, 9]);

    let mut short = [7u8; 3];
    classify_chars_simd(data, 4, &mut short);
    assert_eq!(short, [3, 3, 1]);

    let mut untouched = [5u8; 2];
    classify_chars_simd(data, 40, &mut untouched);
    assert_eq!(untouched, [5, 5]);
}
