use csv_parser::bytes::{bytes_eq, copy_bytes, copy_range, find_byte};

#[test]
fn bytes_eq_compares_length_and_content() {
    assert!(bytes_eq(b"", b""));
    assert!(bytes_eq(b"abc", b"abc"));
    assert!(!bytes_eq(b"abc", b"abd"));
    assert!(!bytes_eq(b"abc", b"ab"));
    assert!(!bytes_eq(b"", b"a"));
}

#[test]
fn copy_range_copies_a_part() {
    assert_eq!(copy_range(b"hello", 1, 4), b"ell".to_vec());
    assert_eq!(copy_range(b"hello", 2, 2), Vec::<u8>::new());
    assert_eq!(copy_range(b"hello", 0, 5), b"hello".to_vec());
    assert_eq!(copy_bytes(b"hello"), b"hello".to_vec());
    assert_eq!(copy_bytes(b""), Vec::<u8>::new());
}

#[test]
fn find_byte_gives_the_first_place_or_the_length() {
    assert_eq!(find_byte(b"a:b:c", b':', 0), 1);
    assert_eq!(find_byte(b"a:b:c", b':', 1), 1);
    assert_eq!(find_byte(b"a:b:c", b':', 2), 3);
    assert_eq!(find_byte(b"a:b:c", b':', 4), 5);
    assert_eq!(find_byte(b"abc", b':', 0), 3);
    assert_eq!(find_byte(b"", b':', 0), 0);
}
