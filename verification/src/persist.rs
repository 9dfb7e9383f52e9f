//! What is written is read back: the bytes that `update_file` builds load
//! as exactly the entries that were written.

use crate::codec::{
    decode, field_safe, lemma_line_shape, lemma_round_trip, line_of, rank_text_of, RowError,
    RowView, NEWLINE,
};
use crate::single::Single;
use crate::store::{image, lines, rank_at, rejects_of, retained, rows_of, written, Rejected};
use crate::text::{first_index, lemma_split_append, lemma_split_joined, split};
use vstd::prelude::*;

verus! {

/// The entries that are written, in order.
pub open spec fn written_rows(table: Seq<RowView>, texts: Seq<Seq<u8>>) -> Seq<RowView>
    decreases table.len(),
{
    if table.len() == 0 {
        Seq::empty()
    } else if written(table, texts, table.len() - 1) {
        written_rows(table.drop_last(), texts).push(table.last())
    } else {
        written_rows(table.drop_last(), texts)
    }
}

/// The rank texts of the entries that are written, in order.
pub open spec fn written_texts(table: Seq<RowView>, texts: Seq<Seq<u8>>) -> Seq<Seq<u8>>
    decreases table.len(),
{
    if table.len() == 0 {
        Seq::empty()
    } else if written(table, texts, table.len() - 1) {
        written_texts(table.drop_last(), texts).push(texts[table.len() - 1])
    } else {
        written_texts(table.drop_last(), texts)
    }
}

/// The line of each entry.
pub open spec fn lines_for(rows: Seq<RowView>, texts: Seq<Seq<u8>>) -> Seq<Seq<u8>> {
    Seq::new(rows.len(), |i: int| line_of(rows[i], texts[i]))
}

/// The written entries and their rank texts come in pairs, each fit to stand
/// in a line.
pub proof fn lemma_written(table: Seq<RowView>, texts: Seq<Seq<u8>>)
    ensures
        written_texts(table, texts).len() == written_rows(table, texts).len(),
        written_rows(table, texts).len() <= table.len(),
        forall|k: int|
            0 <= k < written_rows(table, texts).len() ==> retained(
                #[trigger] written_rows(table, texts)[k],
            ) && field_safe(written_texts(table, texts)[k]),
    decreases table.len(),
{
    if table.len() > 0 {
        lemma_written(table.drop_last(), texts);
    }
}

/// The bytes of a store split at the line terminators into the lines of the
/// written entries, and an empty piece behind the last terminator.
pub proof fn lemma_image_pieces(table: Seq<RowView>, texts: Seq<Seq<u8>>)
    ensures
        split(image(table, texts), NEWLINE) == lines_for(
            written_rows(table, texts),
            written_texts(table, texts),
        ).push(Seq::empty()),
    decreases table.len(),
{
    let rows = written_rows(table, texts);
    let kept = written_texts(table, texts);
    lemma_written(table, texts);
    if table.len() == 0 {
        assert(image(table, texts) =~= Seq::<u8>::empty());
        assert(first_index(Seq::<u8>::empty(), NEWLINE) == 0);
        assert(split(Seq::<u8>::empty(), NEWLINE) == seq![Seq::<u8>::empty()]);
        assert(lines_for(rows, kept).push(Seq::empty()) =~= seq![Seq::<u8>::empty()]);
    } else {
        let head = table.drop_last();
        lemma_image_pieces(head, texts);
        lemma_written(head, texts);
        if written(table, texts, table.len() - 1) {
            let before = image(head, texts);
            let line = line_of(table.last(), texts[table.len() - 1]);
            let earlier = lines_for(written_rows(head, texts), written_texts(head, texts));
            lemma_line_shape(table.last(), texts[table.len() - 1]);
            let tail = line + seq![NEWLINE];
            assert(image(table, texts) =~= before + tail);
            lemma_split_append(before, tail, NEWLINE);
            assert(split(before, NEWLINE).drop_last() =~= earlier);
            assert(split(before, NEWLINE).last() =~= Seq::<u8>::empty());
            assert(Seq::<u8>::empty() + tail =~= tail);
            lemma_split_joined(line, Seq::<u8>::empty(), NEWLINE);
            assert(line + seq![NEWLINE] + Seq::<u8>::empty() =~= tail);
            assert(first_index(Seq::<u8>::empty(), NEWLINE) == 0);
            assert(split(Seq::<u8>::empty(), NEWLINE) == seq![Seq::<u8>::empty()]);
            assert(split(tail, NEWLINE) =~= seq![line, Seq::<u8>::empty()]);
            assert(lines_for(rows, kept) =~= earlier.push(line));
            assert(split(image(table, texts), NEWLINE) =~= lines_for(rows, kept).push(
                Seq::empty(),
            ));
        }
    }
}

/// The lines of a store are the lines of the written entries.
pub proof fn lemma_image_lines(table: Seq<RowView>, texts: Seq<Seq<u8>>)
    ensures
        lines(image(table, texts)) == lines_for(
            written_rows(table, texts),
            written_texts(table, texts),
        ),
{
    lemma_image_pieces(table, texts);
}

/// Lines made from entries decode to those entries, given the rank of each,
/// and none is set aside.
pub proof fn lemma_lines_load(rows: Seq<RowView>, texts: Seq<Seq<u8>>, ranks: Seq<Option<Single>>)
    requires
        texts.len() == rows.len(),
        forall|k: int|
            0 <= k < rows.len() ==> retained(#[trigger] rows[k]) && field_safe(texts[k])
                && rank_at(ranks, k) == Some(rows[k].rank),
    ensures
        rows_of(lines_for(rows, texts), ranks) == rows,
        rejects_of(lines_for(rows, texts), ranks) == Seq::<Rejected>::empty(),
    decreases rows.len(),
{
    let all = lines_for(rows, texts);
    if rows.len() == 0 {
        assert(rows_of(all, ranks) =~= rows);
    } else {
        let n = rows.len() - 1;
        let head = rows.drop_last();
        let kept = texts.drop_last();
        assert forall|k: int| 0 <= k < head.len() implies retained(#[trigger] head[k])
            && field_safe(kept[k]) && rank_at(ranks, k) == Some(head[k].rank) by {
            assert(head[k] == rows[k]);
        }
        lemma_lines_load(head, kept, ranks);
        assert(all.drop_last() =~= lines_for(head, kept));
        assert(all.last() == line_of(rows[n], texts[n]));
        lemma_round_trip(rows[n], texts[n]);
        assert(decode(all.last(), rank_at(ranks, n)) == Ok::<RowView, RowError>(rows[n]));
        assert(rows_of(all, ranks) =~= rows);
    }
}

/// Loading the bytes that were written for a table gives the written entries
/// back, in order, and sets no line aside. `ranks[k]` is the rank of the
/// `k`-th written entry: what reading its rank text as a number gives.
pub proof fn lemma_written_is_read_back(
    table: Seq<RowView>,
    texts: Seq<Seq<u8>>,
    ranks: Seq<Option<Single>>,
)
    requires
        forall|k: int|
            0 <= k < written_rows(table, texts).len() ==> rank_at(ranks, k) == Some(
                (#[trigger] written_rows(table, texts)[k]).rank,
            ),
    ensures
        rows_of(lines(image(table, texts)), ranks) == written_rows(table, texts),
        rejects_of(lines(image(table, texts)), ranks) == Seq::<Rejected>::empty(),
        forall|k: int|
            0 <= k < written_rows(table, texts).len() ==> rank_text_of(
                #[trigger] lines(image(table, texts))[k],
            ) == Some(written_texts(table, texts)[k]),
{
    let rows = written_rows(table, texts);
    let kept = written_texts(table, texts);
    lemma_written(table, texts);
    lemma_image_lines(table, texts);
    lemma_lines_load(rows, kept, ranks);
    assert forall|k: int| 0 <= k < rows.len() implies rank_text_of(
        #[trigger] lines(image(table, texts))[k],
    ) == Some(kept[k]) by {
        lemma_round_trip(rows[k], kept[k]);
    }
}

} // verus!
