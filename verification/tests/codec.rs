use zrs::codec::{
    encode, is_field_safe, parse_time, rank_field, time_text, to_row, Row, RowError,
};
use zrs::single::Single;

fn single(x: f32) -> Single {
    Single::from_bits(x.to_bits())
}

fn read_rank(text: &[u8]) -> Option<Single> {
    std::str::from_utf8(text).ok()?.parse::<f32>().ok().map(single)
}

fn decode(line: &str) -> Result<Row, RowError> {
    let rank = rank_field(line.as_bytes()).and_then(|text| read_rank(&text));
    to_row(line.as_bytes(), rank)
}

#[test]
fn to_row_reads_the_three_fields() {
    let row = decode("/home/faux|12.5|1500000000").unwrap();
    assert_eq!(b"/home/faux".to_vec(), row.path);
    assert_eq!(12.5f32.to_bits(), row.rank.bits);
    assert_eq!(1_500_000_000, row.time);
}

#[test]
fn to_row_ignores_further_fields() {
    let row = decode("/a|1|2|3|four").unwrap();
    assert_eq!(b"/a".to_vec(), row.path);
    assert_eq!(1.0f32.to_bits(), row.rank.bits);
    assert_eq!(2, row.time);
}

#[test]
fn to_row_accepts_an_empty_path() {
    let row = decode("|3|4").unwrap();
    assert_eq!(Vec::<u8>::new(), row.path);
    assert_eq!(3.0f32.to_bits(), row.rank.bits);
    assert_eq!(4, row.time);
}

#[test]
fn to_row_missing_rank() {
    assert_eq!(Some(RowError::MissingRank), decode("/home/faux").err());
    assert_eq!(Some(RowError::MissingRank), decode("").err());
    assert_eq!(Some(RowError::MissingRank), to_row(b"/a", Some(single(1.0))).err());
}

#[test]
fn to_row_bad_rank() {
    assert_eq!(Some(RowError::BadRank), decode("/a|many|5").err());
    assert_eq!(Some(RowError::BadRank), decode("/a||5").err());
    assert_eq!(Some(RowError::BadRank), decode("/a|x").err());
    assert_eq!(Some(RowError::BadRank), to_row(b"/a|1|5", None).err());
}

#[test]
fn to_row_missing_time() {
    assert_eq!(Some(RowError::MissingTime), decode("/a|1").err());
}

#[test]
fn to_row_bad_time() {
    assert_eq!(Some(RowError::BadTime), decode("/a|1|").err());
    assert_eq!(Some(RowError::BadTime), decode("/a|1|soon").err());
    assert_eq!(Some(RowError::BadTime), decode("/a|1|-5").err());
    assert_eq!(Some(RowError::BadTime), decode("/a|1|1.5").err());
    assert_eq!(Some(RowError::BadTime), decode("/a|1|18446744073709551616").err());
    assert_eq!(Some(RowError::BadTime), decode("/a|inf|soon").err());
}

#[test]
fn to_row_non_finite_rank() {
    assert_eq!(Some(RowError::NonFiniteRank), decode("/a|inf|5").err());
    assert_eq!(Some(RowError::NonFiniteRank), decode("/a|-inf|5").err());
    assert_eq!(Some(RowError::NonFiniteRank), decode("/a|NaN|5").err());
    assert_eq!(Some(RowError::NonFiniteRank), decode("/a|1e99|5").err());
}

#[test]
fn every_error_has_a_message() {
    for error in [
        RowError::MissingRank,
        RowError::BadRank,
        RowError::MissingTime,
        RowError::BadTime,
        RowError::NonFiniteRank,
    ] {
        assert!(!error.message().is_empty());
    }
    assert_eq!("row needs a rank", RowError::MissingRank.message());
    assert_eq!("row needs a time", RowError::MissingTime.message());
}

#[test]
fn parse_time_agrees_with_the_standard_library() {
    for text in [
        "0",
        "7",
        "007",
        "+5",
        "+",
        "",
        "-1",
        "-0",
        "++1",
        "+-1",
        "1+",
        " 1",
        "1 ",
        "1_000",
        "0x10",
        "12a",
        "1500000000",
        "18446744073709551615",
        "18446744073709551616",
        "+18446744073709551615",
        "99999999999999999999999",
        "00000000000000000000000000018446744073709551615",
        "1\r",
    ] {
        assert_eq!(text.parse::<u64>().ok(), parse_time(text.as_bytes()), "{:?}", text);
    }
}

#[test]
fn parse_time_exact_values() {
    assert_eq!(Some(0), parse_time(b"0"));
    assert_eq!(Some(1_500_000_000), parse_time(b"1500000000"));
    assert_eq!(Some(u64::MAX), parse_time(b"18446744073709551615"));
    assert_eq!(None, parse_time(b"18446744073709551616"));
    assert_eq!(None, parse_time(b""));
}

#[test]
fn time_text_agrees_with_the_standard_library() {
    for time in [0u64, 1, 9, 10, 11, 99, 100, 1_500_000_000, u64::MAX - 1, u64::MAX] {
        assert_eq!(time.to_string().into_bytes(), time_text(time));
    }
}

#[test]
fn time_text_then_parse_time_is_the_identity() {
    for time in [0u64, 5, 10, 12345, 1_700_000_000, u64::MAX] {
        assert_eq!(Some(time), parse_time(&time_text(time)));
    }
}

#[test]
fn rank_field_is_the_second_field() {
    assert_eq!(Some(b"12.5".to_vec()), rank_field(b"/home/faux|12.5|1500000000"));
    assert_eq!(Some(b"".to_vec()), rank_field(b"/a|"));
    assert_eq!(Some(b"x".to_vec()), rank_field(b"/a|x"));
    assert_eq!(None, rank_field(b"/a"));
    assert_eq!(None, rank_field(b""));
}

#[test]
fn is_field_safe_refuses_delimiter_and_newline() {
    assert!(is_field_safe(b"/home/faux"));
    assert!(is_field_safe(b""));
    assert!(is_field_safe(b"/with space/and\ttab\r"));
    assert!(!is_field_safe(b"/pipe|here"));
    assert!(!is_field_safe(b"/line\nbreak"));
    assert!(!is_field_safe(b"|"));
}

#[test]
fn encode_joins_the_fields() {
    let row = Row { path: b"/home/faux".to_vec(), rank: single(12.5), time: 1_500_000_000 };
    assert_eq!(b"/home/faux|12.5|1500000000".to_vec(), encode(&row, b"12.5"));
    let row = Row { path: b"/".to_vec(), rank: single(1.0), time: 0 };
    assert_eq!(b"/|1|0".to_vec(), encode(&row, b"1"));
}

#[test]
fn encode_then_decode_gives_the_entry_back() {
    for (path, rank, time) in [
        ("/home/faux", 12.5f32, 1_500_000_000u64),
        ("/", 1.0, 0),
        ("/tmp/with space", 0.98, u64::MAX),
        ("relative/path", 8999.123, 42),
        ("/caf\u{e9}/\u{1F4A9}", 3.4028235e38, 7),
        ("", 1.0e-45, 1),
    ] {
        let row = Row { path: path.as_bytes().to_vec(), rank: single(rank), time };
        let text = format!("{}", rank);
        let line = encode(&row, text.as_bytes());
        assert_eq!(Some(text.clone().into_bytes()), rank_field(&line));
        let back = to_row(&line, read_rank(text.as_bytes())).unwrap();
        assert_eq!(row.path, back.path);
        assert_eq!(row.rank, back.rank);
        assert_eq!(row.time, back.time);
    }
}

#[test]
fn clone_keeps_every_field() {
    let row = Row { path: b"/home/faux".to_vec(), rank: single(2.0), time: 9 };
    let copy = row.clone();
    assert_eq!(row.path, copy.path);
    assert_eq!(row.rank, copy.rank);
    assert_eq!(row.time, copy.time);
}
