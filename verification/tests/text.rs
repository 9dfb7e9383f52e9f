use zrs::text::{append_bytes, copy_range, has_byte, same_bytes, split_bytes};

fn pieces(text: &str, sep: char) -> Vec<Vec<u8>> {
    text.split(sep).map(|piece| piece.as_bytes().to_vec()).collect()
}

#[test]
fn split_bytes_agrees_with_the_standard_library() {
    for text in ["", "a", "|", "a|b", "a||b", "|a|", "||", "/home/faux|12.5|1500000000", "a|b|c|d|"] {
        assert_eq!(pieces(text, '|'), split_bytes(text.as_bytes(), b'|'), "{:?}", text);
    }
    for text in ["", "/", "//", "/home/faux", "a/b/", "no separator"] {
        assert_eq!(pieces(text, '/'), split_bytes(text.as_bytes(), b'/'), "{:?}", text);
    }
}

#[test]
fn split_bytes_exact_values() {
    assert_eq!(vec![Vec::<u8>::new()], split_bytes(b"", b'|'));
    assert_eq!(vec![b"a".to_vec(), b"".to_vec(), b"b".to_vec()], split_bytes(b"a||b", b'|'));
    assert_eq!(vec![b"a|b".to_vec()], split_bytes(b"a|b", b'/'));
}

#[test]
fn has_byte_finds_a_byte_anywhere() {
    assert!(has_byte(b"abc", b'a'));
    assert!(has_byte(b"abc", b'c'));
    assert!(!has_byte(b"abc", b'd'));
    assert!(!has_byte(b"", b'a'));
    assert!(has_byte(b"\n", b'\n'));
}

#[test]
fn same_bytes_compares_every_byte() {
    assert!(same_bytes(b"", b""));
    assert!(same_bytes(b"/home", b"/home"));
    assert!(!same_bytes(b"/home", b"/homE"));
    assert!(!same_bytes(b"/home", b"/hom"));
    assert!(!same_bytes(b"", b"a"));
}

#[test]
fn copy_range_takes_the_bytes_between() {
    assert_eq!(b"ome".to_vec(), copy_range(b"/home", 2, 5));
    assert_eq!(b"/home".to_vec(), copy_range(b"/home", 0, 5));
    assert_eq!(Vec::<u8>::new(), copy_range(b"/home", 3, 3));
    assert_eq!(Vec::<u8>::new(), copy_range(b"", 0, 0));
}

#[test]
fn append_bytes_adds_at_the_end() {
    let mut out = b"/home".to_vec();
    append_bytes(&mut out, b"/faux");
    assert_eq!(b"/home/faux".to_vec(), out);
    append_bytes(&mut out, b"");
    assert_eq!(b"/home/faux".to_vec(), out);
    let mut empty = Vec::new();
    append_bytes(&mut empty, b"x");
    assert_eq!(b"x".to_vec(), empty);
}
