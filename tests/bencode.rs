use torrent_core::bencode::{find_key, read_str_span, read_uint, skip_value};

#[test]
fn skips_nested_values() {
    let b = b"ld1:ai-3ee4:spamli1eee";
    assert_eq!(skip_value(b, 0), Some(b.len()));
    assert_eq!(skip_value(b, 1), Some(10));
    assert_eq!(skip_value(b"l4:spam", 0), None);
    assert_eq!(skip_value(b"ie", 0), None);
}

#[test]
fn reads_strings_and_integers() {
    assert_eq!(read_str_span(b"4:spamx", 0), Some((2, 6)));
    assert_eq!(read_str_span(b"5:spam", 0), None);
    assert_eq!(read_uint(b"i1234e", 0), Some((1234, 6)));
    assert_eq!(read_uint(b"i-1e", 0), None);
    assert_eq!(read_uint(b"i99999999999999999999999e", 0), None);
}

#[test]
fn finds_first_matching_key() {
    let b = b"d1:ai1e1:bi2e1:bi3ee";
    assert_eq!(find_key(b, 1, b"b"), Some(10));
    assert_eq!(find_key(b, 1, b"c"), None);
}
