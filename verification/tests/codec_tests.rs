use lsh_service::codec::{format_post_id, parse_post_id};

#[test]
fn formats_single_digit() {
    assert_eq!(format_post_id(0), b"0".to_vec());
    assert_eq!(format_post_id(7), b"7".to_vec());
}

#[test]
fn formats_multiple_digits() {
    assert_eq!(format_post_id(12345), b"12345".to_vec());
    assert_eq!(format_post_id(u32::MAX), b"4294967295".to_vec());
}

#[test]
fn parses_what_it_formats() {
    for n in [0u32, 1, 9, 10, 99, 100, 31337, u32::MAX] {
        assert_eq!(parse_post_id(&format_post_id(n)), Some(n));
    }
}

#[test]
fn parses_leading_zeros() {
    assert_eq!(parse_post_id(&b"007".to_vec()), Some(7));
    assert_eq!(parse_post_id(&b"0".to_vec()), Some(0));
}

#[test]
fn rejects_empty_and_non_digits() {
    assert_eq!(parse_post_id(&Vec::new()), None);
    assert_eq!(parse_post_id(&b"12a".to_vec()), None);
    assert_eq!(parse_post_id(&b"-1".to_vec()), None);
    assert_eq!(parse_post_id(&b" 1".to_vec()), None);
}

#[test]
fn rejects_out_of_range() {
    assert_eq!(parse_post_id(&b"4294967296".to_vec()), None);
    assert_eq!(parse_post_id(&b"99999999999999999999".to_vec()), None);
}
