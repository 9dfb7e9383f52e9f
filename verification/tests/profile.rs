use zrs::profile::{already_sourced, is_quotable, profile_addition, source_line};

#[test]
fn already_sourced_finds_the_script_anywhere() {
    let script = b"/home/faux/.local/share/zrs/z.sh";
    assert!(already_sourced(b". '/home/faux/.local/share/zrs/z.sh'\n", script));
    assert!(already_sourced(b"/home/faux/.local/share/zrs/z.sh", script));
    assert!(already_sourced(
        b"export A=1\n\n. '/home/faux/.local/share/zrs/z.sh'\nalias x=y\n",
        script
    ));
    assert!(!already_sourced(b"export A=1\n. '/home/faux/.local/share/zrs/z.s'\n", script));
    assert!(!already_sourced(b"", script));
    assert!(!already_sourced(b"z.sh", script));
}

#[test]
fn already_sourced_with_short_patterns() {
    assert!(already_sourced(b"abc", b""));
    assert!(already_sourced(b"", b""));
    assert!(already_sourced(b"abc", b"c"));
    assert!(!already_sourced(b"abc", b"d"));
    assert!(already_sourced(b"abcabc", b"ca"));
    assert!(!already_sourced(b"ab", b"abc"));
}

#[test]
fn source_line_quotes_the_path() {
    assert_eq!(b"\n\n. '/x/z.sh'\n".to_vec(), source_line(b"/x/z.sh"));
    assert_eq!(b"\n\n. ''\n".to_vec(), source_line(b""));
    assert_eq!(format!("\n\n. '{}'\n", "/a b/z.sh").into_bytes(), source_line(b"/a b/z.sh"));
}

#[test]
fn is_quotable_refuses_single_quotes() {
    assert!(is_quotable(b"/home/faux/.local/share/zrs/z.sh"));
    assert!(is_quotable(b"/with \"double\" quotes"));
    assert!(!is_quotable(b"/it's/z.sh"));
    assert!(!is_quotable(b"'"));
}

#[test]
fn profile_addition_is_made_once() {
    let script = b"/x/z.sh";
    let mut rc = b"export A=1\n".to_vec();
    let line = profile_addition(&rc, script).unwrap();
    assert_eq!(b"\n\n. '/x/z.sh'\n".to_vec(), line);
    rc.extend_from_slice(&line);
    assert_eq!(None, profile_addition(&rc, script));
}
