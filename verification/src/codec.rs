//! The record format: one entry per line, `path|rank|time`.
//!
//! The rank field is the decimal text of a binary32 value; turning that text
//! into a value and back is floating-point work and is left to the caller,
//! who hands the outcome in. Everything else about a line is decided here.

use crate::single::Single;
use crate::text::{
    append_bytes, copy_range, has_byte, lemma_split_joined, lemma_split_pieces, lemma_split_whole,
    split, split_bytes, views,
};
use vstd::prelude::*;

verus! {

/// The field delimiter, `|`.
pub const DELIMITER: u8 = 0x7C;

/// The line terminator.
pub const NEWLINE: u8 = 0x0A;

/// The carriage return that may precede a line terminator.
pub const CARRIAGE_RETURN: u8 = 0x0D;

/// One persisted entry: a path, its accumulated rank and when it was last
/// visited, in seconds since the Unix epoch.
#[derive(Debug, PartialEq, Eq)]
pub struct Row {
    pub path: Vec<u8>,
    pub rank: Single,
    pub time: u64,
}

/// The mathematical value of a `Row`.
pub struct RowView {
    pub path: Seq<u8>,
    pub rank: Single,
    pub time: u64,
}

impl View for Row {
    type V = RowView;

    open spec fn view(&self) -> RowView {
        RowView { path: self.path@, rank: self.rank, time: self.time }
    }
}

impl Clone for Row {
    fn clone(&self) -> (r: Row)
        ensures
            r@ == self@,
    {
        let path = copy_range(self.path.as_slice(), 0, self.path.len());
        assert(path@ =~= self.path@);
        Row { path, rank: self.rank, time: self.time }
    }
}

/// The views of a vector of rows.
pub open spec fn row_views(rows: Seq<Row>) -> Seq<RowView> {
    Seq::new(rows.len(), |i: int| rows[i]@)
}

/// Why a line is not an entry.
#[derive(Clone, Copy, Debug, PartialEq, Eq, Structural)]
pub enum RowError {
    /// The line has no second field.
    MissingRank,
    /// The second field is not the text of a number.
    BadRank,
    /// The line has no third field.
    MissingTime,
    /// The third field is not an unsigned decimal that fits 64 bits.
    BadTime,
    /// The rank is an infinity or a NaN.
    NonFiniteRank,
}

impl RowError {
    /// A short description for diagnostics.
    pub fn message(&self) -> (r: &'static str)
        ensures
            r@ == match self {
                RowError::MissingRank => "row needs a rank"@,
                RowError::BadRank => "rank is not a number"@,
                RowError::MissingTime => "row needs a time"@,
                RowError::BadTime => "time is not an unsigned integer"@,
                RowError::NonFiniteRank => "rank is not finite"@,
            },
    {
        match self {
            RowError::MissingRank => "row needs a rank",
            RowError::BadRank => "rank is not a number",
            RowError::MissingTime => "row needs a time",
            RowError::BadTime => "time is not an unsigned integer",
            RowError::NonFiniteRank => "rank is not finite",
        }
    }
}

/// Is `b` an ASCII decimal digit?
pub open spec fn is_digit(b: u8) -> bool {
    0x30 <= b <= 0x39
}

/// Do all of the bytes stand for decimal digits?
pub open spec fn all_digits(s: Seq<u8>) -> bool {
    forall|i: int| 0 <= i < s.len() ==> is_digit(#[trigger] s[i])
}

/// The number that a string of decimal digits denotes.
pub open spec fn digits_value(s: Seq<u8>) -> nat
    decreases s.len(),
{
    if s.len() == 0 {
        0
    } else {
        (digits_value(s.drop_last()) * 10 + (s.last() - 0x30)) as nat
    }
}

/// The text without one leading `+`, if it has one.
pub open spec fn unsigned_part(s: Seq<u8>) -> Seq<u8> {
    if s.len() > 0 && s[0] == 0x2B {
        s.skip(1)
    } else {
        s
    }
}

/// The timestamp that a field denotes: an optional `+`, then one or more
/// decimal digits whose value fits 64 bits. Anything else denotes none.
pub open spec fn time_of(text: Seq<u8>) -> Option<u64> {
    let d = unsigned_part(text);
    if d.len() > 0 && all_digits(d) && digits_value(d) <= u64::MAX {
        Some(digits_value(d) as u64)
    } else {
        None
    }
}

/// The decimal text of a number, without sign or leading zeros.
pub open spec fn decimal(n: nat) -> Seq<u8>
    decreases n,
{
    if n < 10 {
        seq![(0x30 + n) as u8]
    } else {
        decimal(n / 10).push((0x30 + n % 10) as u8)
    }
}

/// The decimal text of a number is made of digits and denotes that number.
pub proof fn lemma_decimal(n: nat)
    ensures
        decimal(n).len() > 0,
        all_digits(decimal(n)),
        digits_value(decimal(n)) == n,
        unsigned_part(decimal(n)) == decimal(n),
        !decimal(n).contains(DELIMITER),
        !decimal(n).contains(NEWLINE),
    decreases n,
{
    let d = decimal(n);
    if n < 10 {
        assert(digits_value(d.drop_last()) == 0);
    } else {
        lemma_decimal(n / 10);
        assert(d.drop_last() =~= decimal(n / 10));
    }
}

/// A longer string of digits denotes at least what its prefix denotes.
proof fn lemma_prefix_value(s: Seq<u8>, k: int)
    requires
        0 <= k <= s.len(),
        all_digits(s),
    ensures
        digits_value(s.take(k)) <= digits_value(s),
    decreases s.len() - k,
{
    if k < s.len() {
        lemma_prefix_value(s, k + 1);
        let t = s.take(k + 1);
        assert(t.drop_last() =~= s.take(k));
    } else {
        assert(s.take(k) =~= s);
    }
}

/// Reads a timestamp field.
pub fn parse_time(text: &[u8]) -> (r: Option<u64>)
    ensures
        r == time_of(text@),
{
    let start: usize = if text.len() > 0 && text[0] == 0x2B { 1 } else { 0 };
    let ghost d = unsigned_part(text@);
    if start == text.len() {
        return None;
    }
    let mut acc: u64 = 0;
    let mut i: usize = start;
    while i < text.len()
        invariant
            start <= i <= text.len(),
            d == text@.skip(start as int),
            d == unsigned_part(text@),
            all_digits(d.take(i - start)),
            acc == digits_value(d.take(i - start)),
        decreases text.len() - i,
    {
        let b: u8 = text[i];
        assert(d[i - start] == b);
        let ghost next = d.take(i - start + 1);
        assert(next.drop_last() =~= d.take(i - start));
        if b < 0x30 || b > 0x39 {
            return None;
        }
        let digit: u64 = (b - 0x30) as u64;
        let grown: Option<u64> = match acc.checked_mul(10) {
            Some(tens) => tens.checked_add(digit),
            None => None,
        };
        match grown {
            Some(v) => {
                acc = v;
            },
            None => {
                proof {
                    if all_digits(d) {
                        lemma_prefix_value(d, i - start + 1);
                    }
                }
                return None;
            },
        }
        i += 1;
    }
    assert(d.take(i - start) =~= d);
    Some(acc)
}

/// Writes a timestamp as decimal text.
pub fn time_text(time: u64) -> (r: Vec<u8>)
    ensures
        r@ == decimal(time as nat),
    decreases time,
{
    if time < 10 {
        let d: u8 = (time as u8) + 0x30;
        let mut out: Vec<u8> = Vec::new();
        out.push(d);
        out
    } else {
        let mut out = time_text(time / 10);
        let d: u8 = ((time % 10) as u8) + 0x30;
        out.push(d);
        out
    }
}

/// What a line denotes, given what reading its rank field as a number gave
/// (`None` where that field is not the text of a number). Fields beyond the
/// third are ignored.
pub open spec fn decode(line: Seq<u8>, rank: Option<Single>) -> Result<RowView, RowError> {
    let fields = split(line, DELIMITER);
    if fields.len() < 2 {
        Err(RowError::MissingRank)
    } else if rank is None {
        Err(RowError::BadRank)
    } else if fields.len() < 3 {
        Err(RowError::MissingTime)
    } else if time_of(fields[2]) is None {
        Err(RowError::BadTime)
    } else if !rank->0.finite() {
        Err(RowError::NonFiniteRank)
    } else {
        Ok(RowView { path: fields[0], rank: rank->0, time: time_of(fields[2])->0 })
    }
}

/// The text of a line's rank field, if the line has one.
pub open spec fn rank_text_of(line: Seq<u8>) -> Option<Seq<u8>> {
    let fields = split(line, DELIMITER);
    if fields.len() < 2 {
        None
    } else {
        Some(fields[1])
    }
}

/// The rank field of a line, to be read as a number by the caller.
pub fn rank_field(line: &[u8]) -> (r: Option<Vec<u8>>)
    ensures
        match r {
            Some(text) => rank_text_of(line@) == Some(text@),
            None => rank_text_of(line@) is None,
        },
{
    let mut fields = split_bytes(line, DELIMITER);
    if fields.len() < 2 {
        None
    } else {
        Some(fields.swap_remove(1))
    }
}

/// Decodes one line. `rank` is what reading the line's rank field as a
/// number gave, or `None` where that failed or the line has no such field.
pub fn to_row(line: &[u8], rank: Option<Single>) -> (r: Result<Row, RowError>)
    ensures
        match r {
            Ok(row) => decode(line@, rank) == Ok::<RowView, RowError>(row@),
            Err(e) => decode(line@, rank) == Err::<RowView, RowError>(e),
        },
{
    let mut fields = split_bytes(line, DELIMITER);
    if fields.len() < 2 {
        return Err(RowError::MissingRank);
    }
    let value = match rank {
        Some(value) => value,
        None => {
            return Err(RowError::BadRank);
        },
    };
    if fields.len() < 3 {
        return Err(RowError::MissingTime);
    }
    let time = match parse_time(fields[2].as_slice()) {
        Some(time) => time,
        None => {
            return Err(RowError::BadTime);
        },
    };
    if !value.is_finite() {
        return Err(RowError::NonFiniteRank);
    }
    let path = fields.swap_remove(0);
    Ok(Row { path, rank: value, time })
}

/// Can a field stand in a line without breaking the format? It can when it
/// holds neither the delimiter nor a line terminator.
pub open spec fn field_safe(field: Seq<u8>) -> bool {
    !field.contains(DELIMITER) && !field.contains(NEWLINE)
}

/// Tests whether a field can stand in a line.
pub fn is_field_safe(field: &[u8]) -> (r: bool)
    ensures
        r == field_safe(field@),
{
    !has_byte(field, DELIMITER) && !has_byte(field, NEWLINE)
}

/// The line that holds an entry, without its terminator. `rank_text` is the
/// decimal text of the entry's rank.
pub open spec fn line_of(row: RowView, rank_text: Seq<u8>) -> Seq<u8> {
    row.path + seq![DELIMITER] + rank_text + seq![DELIMITER] + decimal(row.time as nat)
}

/// Encodes one entry as a line, without its terminator.
pub fn encode(row: &Row, rank_text: &[u8]) -> (r: Vec<u8>)
    ensures
        r@ == line_of(row@, rank_text@),
{
    let mut out: Vec<u8> = Vec::new();
    append_bytes(&mut out, row.path.as_slice());
    out.push(DELIMITER);
    append_bytes(&mut out, rank_text);
    out.push(DELIMITER);
    let digits = time_text(row.time);
    append_bytes(&mut out, digits.as_slice());
    out
}

/// A line splits into the path, the rank text and the decimal time, provided
/// that neither the path nor the rank text holds the delimiter.
pub proof fn lemma_line_fields(row: RowView, rank_text: Seq<u8>)
    requires
        !row.path.contains(DELIMITER),
        !rank_text.contains(DELIMITER),
    ensures
        split(line_of(row, rank_text), DELIMITER) == seq![
            row.path,
            rank_text,
            decimal(row.time as nat),
        ],
{
    let digits = decimal(row.time as nat);
    lemma_decimal(row.time as nat);
    let tail = rank_text + seq![DELIMITER] + digits;
    let line = line_of(row, rank_text);
    assert(line =~= row.path + seq![DELIMITER] + tail);
    lemma_split_joined(row.path, tail, DELIMITER);
    lemma_split_joined(rank_text, digits, DELIMITER);
    lemma_split_whole(digits, DELIMITER);
}

/// A line made of fields that can stand in one holds no line terminator, and
/// it ends with a digit.
pub proof fn lemma_line_shape(row: RowView, rank_text: Seq<u8>)
    requires
        field_safe(row.path),
        field_safe(rank_text),
    ensures
        !line_of(row, rank_text).contains(NEWLINE),
        line_of(row, rank_text).len() > 0,
        is_digit(line_of(row, rank_text).last()),
{
    lemma_decimal(row.time as nat);
}

/// Encoding an entry and decoding the line gives the entry back, and the
/// rank field that comes out is the rank text that went in, provided that
/// neither the path nor the rank text holds the delimiter and the rank is
/// finite.
pub proof fn lemma_round_trip(row: RowView, rank_text: Seq<u8>)
    requires
        !row.path.contains(DELIMITER),
        !rank_text.contains(DELIMITER),
        row.rank.finite(),
    ensures
        decode(line_of(row, rank_text), Some(row.rank)) == Ok::<RowView, RowError>(row),
        rank_text_of(line_of(row, rank_text)) == Some(rank_text),
{
    lemma_line_fields(row, rank_text);
    lemma_decimal(row.time as nat);
}

/// Decoding a line and encoding the entry again reproduces the fields: the
/// new line decodes to the same entry, with the same rank text.
pub proof fn lemma_decode_then_encode(line: Seq<u8>, rank: Option<Single>)
    requires
        decode(line, rank) is Ok,
    ensures
        ({
            let row = decode(line, rank)->Ok_0;
            let text = rank_text_of(line)->0;
            &&& rank_text_of(line) is Some
            &&& decode(line_of(row, text), rank) == decode(line, rank)
            &&& rank_text_of(line_of(row, text)) == rank_text_of(line)
        }),
{
    let fields = split(line, DELIMITER);
    lemma_split_pieces(line, DELIMITER);
    let row = decode(line, rank)->Ok_0;
    lemma_round_trip(row, fields[1]);
}

} // verus!
