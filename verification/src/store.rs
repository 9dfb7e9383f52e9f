//! The store: loading the table from its bytes, and building the bytes that
//! replace it.
//!
//! A store is a text, one entry per line. Loading passes over lines that are
//! no entries; writing leaves out entries that have faded or that would
//! break the format. Reading a rank's text as a number, and writing a rank
//! as text, is floating-point work that the caller does and hands in.

use crate::codec::{
    decode, encode, field_safe, is_field_safe, line_of, rank_field, rank_text_of, row_views,
    to_row, Row, RowError, RowView, CARRIAGE_RETURN, NEWLINE,
};
use crate::single::{Single, FLOOR_BITS};
use crate::text::{append_bytes, copy_range, split, split_bytes, views};
use vstd::prelude::*;
use vstd::utf8::valid_utf8;

verus! {

/// A line without the carriage return that it may end with.
pub open spec fn strip_return(line: Seq<u8>) -> Seq<u8> {
    if line.len() > 0 && line.last() == CARRIAGE_RETURN {
        line.drop_last()
    } else {
        line
    }
}

/// The lines of a text. Each line terminator ends a line, and a carriage
/// return just before it is dropped with it; what follows the last
/// terminator is a line too unless it is empty.
pub open spec fn lines(data: Seq<u8>) -> Seq<Seq<u8>> {
    let pieces = split(data, NEWLINE);
    let ended = pieces.drop_last();
    let body = Seq::new(ended.len(), |i: int| strip_return(ended[i]));
    if pieces.last().len() == 0 {
        body
    } else {
        body.push(pieces.last())
    }
}

/// Cuts a text into its lines.
pub fn split_lines(data: &[u8]) -> (r: Vec<Vec<u8>>)
    ensures
        views(r@) == lines(data@),
{
    let mut pieces = split_bytes(data, NEWLINE);
    let ghost all = split(data@, NEWLINE);
    let ghost ended = all.drop_last();
    let last = pieces.pop().unwrap();
    let mut out: Vec<Vec<u8>> = Vec::new();
    let mut i: usize = 0;
    while i < pieces.len()
        invariant
            i <= pieces.len(),
            views(pieces@) == ended,
            out@.len() == i,
            forall|j: int| 0 <= j < i ==> (#[trigger] out@[j])@ == strip_return(ended[j]),
        decreases pieces.len() - i,
    {
        let piece = &pieces[i];
        let n = piece.len();
        let end: usize = if n > 0 && piece[n - 1] == CARRIAGE_RETURN { n - 1 } else { n };
        let line = copy_range(piece.as_slice(), 0, end);
        out.push(line);
        i += 1;
    }
    if last.len() > 0 {
        out.push(last);
    }
    out
}

/// A line that was set aside, and why.
#[derive(Clone, Copy, Debug, PartialEq, Eq, Structural)]
pub struct Rejected {
    /// The line's index, counting from zero.
    pub line: usize,
    pub error: RowError,
}

/// What loading a store gave: the entries, and the lines that are none.
#[derive(Debug, PartialEq, Eq)]
pub struct Loaded {
    pub rows: Vec<Row>,
    pub rejected: Vec<Rejected>,
}

/// The rank read from line `i`, or `None` past the end of `ranks`.
pub open spec fn rank_at(ranks: Seq<Option<Single>>, i: int) -> Option<Single> {
    if 0 <= i < ranks.len() {
        ranks[i]
    } else {
        None
    }
}

/// The entries that the lines denote, in order. Line `i` is decoded with
/// `ranks[i]`; a line that is no entry is passed over.
pub open spec fn rows_of(lines: Seq<Seq<u8>>, ranks: Seq<Option<Single>>) -> Seq<RowView>
    decreases lines.len(),
{
    if lines.len() == 0 {
        Seq::empty()
    } else {
        let before = rows_of(lines.drop_last(), ranks);
        match decode(lines.last(), rank_at(ranks, lines.len() - 1)) {
            Ok(row) => before.push(row),
            Err(_) => before,
        }
    }
}

/// The lines that denote no entry, each with its index and the reason.
pub open spec fn rejects_of(lines: Seq<Seq<u8>>, ranks: Seq<Option<Single>>) -> Seq<Rejected>
    decreases lines.len(),
{
    if lines.len() == 0 {
        Seq::empty()
    } else {
        let before = rejects_of(lines.drop_last(), ranks);
        match decode(lines.last(), rank_at(ranks, lines.len() - 1)) {
            Ok(_) => before,
            Err(error) => before.push(Rejected { line: (lines.len() - 1) as usize, error }),
        }
    }
}

/// Every line is either an entry or set aside, and every entry that is loaded
/// has a finite rank.
pub proof fn lemma_loaded(lines: Seq<Seq<u8>>, ranks: Seq<Option<Single>>)
    ensures
        rows_of(lines, ranks).len() + rejects_of(lines, ranks).len() == lines.len(),
        forall|k: int|
            0 <= k < rows_of(lines, ranks).len() ==> (#[trigger] rows_of(
                lines,
                ranks,
            )[k]).rank.finite(),
        forall|k: int|
            0 <= k < rejects_of(lines, ranks).len() ==> (#[trigger] rejects_of(
                lines,
                ranks,
            )[k]).line < lines.len(),
    decreases lines.len(),
{
    if lines.len() > 0 {
        let head = lines.drop_last();
        lemma_loaded(head, ranks);
    }
}

/// The views of a vector of optional byte strings.
pub open spec fn field_views(fields: Seq<Option<Vec<u8>>>) -> Seq<Option<Seq<u8>>> {
    Seq::new(
        fields.len(),
        |i: int|
            match fields[i] {
                Some(text) => Some(text@),
                None => None,
            },
    )
}

/// The text of the rank field of each line of a store, for the caller to read
/// as numbers before `parse`.
pub fn rank_fields(data: &[u8]) -> (r: Vec<Option<Vec<u8>>>)
    ensures
        field_views(r@) == Seq::new(
            lines(data@).len(),
            |i: int| rank_text_of(lines(data@)[i]),
        ),
{
    let all = split_lines(data);
    let ghost ls = lines(data@);
    let mut out: Vec<Option<Vec<u8>>> = Vec::new();
    let mut i: usize = 0;
    while i < all.len()
        invariant
            i <= all.len(),
            views(all@) == ls,
            out@.len() == i,
            forall|j: int| 0 <= j < i ==> field_views(out@)[j] == rank_text_of(ls[j]),
        decreases all.len() - i,
    {
        let field = rank_field(all[i].as_slice());
        let ghost prev = out@;
        out.push(field);
        assert forall|j: int| 0 <= j < i + 1 implies field_views(out@)[j] == rank_text_of(
            ls[j],
        ) by {
            if j < i {
                assert(field_views(prev)[j] == rank_text_of(ls[j]));
            }
        }
        i += 1;
    }
    out
}

/// Loads a store. `ranks[i]` is what reading the rank field of line `i` as a
/// number gave, or `None` where that failed; lines past the end of `ranks`
/// count as failed. A line that is no entry is set aside and loading goes on.
pub fn parse(data: &[u8], ranks: &Vec<Option<Single>>) -> (r: Loaded)
    ensures
        row_views(r.rows@) == rows_of(lines(data@), ranks@),
        r.rejected@ == rejects_of(lines(data@), ranks@),
        r.rows@.len() + r.rejected@.len() == lines(data@).len(),
        forall|k: int| 0 <= k < r.rows@.len() ==> (#[trigger] r.rows@[k]).rank.finite(),
{
    let all = split_lines(data);
    let ghost ls = lines(data@);
    let mut rows: Vec<Row> = Vec::new();
    let mut rejected: Vec<Rejected> = Vec::new();
    let mut i: usize = 0;
    while i < all.len()
        invariant
            i <= all.len(),
            all.len() == ls.len(),
            views(all@) == ls,
            row_views(rows@) == rows_of(ls.take(i as int), ranks@),
            rejected@ == rejects_of(ls.take(i as int), ranks@),
        decreases all.len() - i,
    {
        let rank: Option<Single> = if i < ranks.len() { ranks[i] } else { None };
        let ghost next = ls.take(i + 1);
        assert(next.drop_last() =~= ls.take(i as int));
        match to_row(all[i].as_slice(), rank) {
            Ok(row) => {
                rows.push(row);
            },
            Err(error) => {
                rejected.push(Rejected { line: i, error });
            },
        }
        i += 1;
    }
    assert(ls.take(i as int) =~= ls);
    proof {
        lemma_loaded(ls, ranks@);
        assert forall|k: int| 0 <= k < rows@.len() implies (#[trigger] rows@[k]).rank.finite() by {
            assert(row_views(rows@)[k] == rows@[k]@);
        }
    }
    Loaded { rows, rejected }
}

/// Reports whether the bytes are well-formed UTF-8, by
/// `std::str::from_utf8`, which accepts exactly the well-formed strings.
#[verifier::external_body]
fn is_utf8(bytes: &[u8]) -> (r: bool)
    ensures
        r == valid_utf8(bytes@),
{
    std::str::from_utf8(bytes).is_ok()
}

/// Is the entry kept when the table is written? It is when its rank is
/// finite and not below the retention floor, and its path is text that holds
/// neither the delimiter nor a line terminator.
pub open spec fn retained(row: RowView) -> bool {
    &&& row.rank.finite()
    &&& !row.rank.below(Single { bits: FLOOR_BITS })
    &&& valid_utf8(row.path)
    &&& field_safe(row.path)
}

/// Tests whether an entry is kept when the table is written.
pub fn is_retained(row: &Row) -> (r: bool)
    ensures
        r == retained(row@),
{
    row.rank.is_finite() && !row.rank.lt(Single::floor()) && is_utf8(row.path.as_slice())
        && is_field_safe(row.path.as_slice())
}

/// Is entry `i` written? It is when it is retained and `texts[i]` is there
/// and can stand in a line.
pub open spec fn written(table: Seq<RowView>, texts: Seq<Seq<u8>>, i: int) -> bool {
    0 <= i < table.len() && retained(table[i]) && i < texts.len() && field_safe(texts[i])
}

/// The bytes of the store that holds the table: one terminated line for each
/// entry that is written, in order. `texts[i]` is the decimal text of the
/// rank of entry `i`.
pub open spec fn image(table: Seq<RowView>, texts: Seq<Seq<u8>>) -> Seq<u8>
    decreases table.len(),
{
    if table.len() == 0 {
        Seq::empty()
    } else {
        let before = image(table.drop_last(), texts);
        if written(table, texts, table.len() - 1) {
            before + line_of(table.last(), texts[table.len() - 1]) + seq![NEWLINE]
        } else {
            before
        }
    }
}

/// Builds the bytes that replace the store after an update. `rank_texts[i]`
/// is the decimal text of the rank of entry `i`. An entry whose rank has
/// decayed below the retention floor or is not finite, or whose path or rank
/// text would break the format, is left out.
pub fn update_file(table: &Vec<Row>, rank_texts: &Vec<Vec<u8>>) -> (r: Vec<u8>)
    ensures
        r@ == image(row_views(table@), views(rank_texts@)),
{
    let ghost rows = row_views(table@);
    let ghost texts = views(rank_texts@);
    let mut out: Vec<u8> = Vec::new();
    let mut i: usize = 0;
    while i < table.len()
        invariant
            i <= table.len(),
            rows == row_views(table@),
            texts == views(rank_texts@),
            out@ == image(rows.take(i as int), texts),
        decreases table.len() - i,
    {
        let ghost next = rows.take(i + 1);
        assert(next.drop_last() =~= rows.take(i as int));
        if i < rank_texts.len() {
            if is_retained(&table[i]) && is_field_safe(rank_texts[i].as_slice()) {
                let line = encode(&table[i], rank_texts[i].as_slice());
                append_bytes(&mut out, line.as_slice());
                out.push(NEWLINE);
            }
        }
        i += 1;
    }
    assert(rows.take(i as int) =~= rows);
    out
}

} // verus!
