//! Byte-string primitives: splitting on a separator, comparing, searching.

use vstd::prelude::*;

verus! {

/// Index of the first `sep` in `s`, or `s.len()` when there is none.
pub open spec fn first_index(s: Seq<u8>, sep: u8) -> int
    decreases s.len(),
{
    if s.len() == 0 {
        0
    } else if s[0] == sep {
        0
    } else {
        1 + first_index(s.skip(1), sep)
    }
}

/// The pieces of `s` between occurrences of `sep`; always at least one piece.
pub open spec fn split(s: Seq<u8>, sep: u8) -> Seq<Seq<u8>>
    decreases s.len(),
{
    let k = first_index(s, sep);
    if 0 <= k < s.len() {
        seq![s.take(k)] + split(s.skip(k + 1), sep)
    } else {
        seq![s]
    }
}

/// The views of a vector of byte vectors.
pub open spec fn views(v: Seq<Vec<u8>>) -> Seq<Seq<u8>> {
    Seq::new(v.len(), |i: int| v[i]@)
}

/// `first_index` is the position of the first separator: nothing before it is
/// one, and the byte at it is one unless it is the length.
pub proof fn lemma_first_index(s: Seq<u8>, sep: u8)
    ensures
        0 <= first_index(s, sep) <= s.len(),
        forall|j: int| 0 <= j < first_index(s, sep) ==> s[j] != sep,
        first_index(s, sep) < s.len() ==> s[first_index(s, sep)] == sep,
        first_index(s, sep) == s.len() <==> !s.contains(sep),
    decreases s.len(),
{
    if s.len() > 0 && s[0] != sep {
        let t = s.skip(1);
        lemma_first_index(t, sep);
        assert forall|j: int| 0 <= j < first_index(s, sep) implies s[j] != sep by {
            if j > 0 {
                assert(t[j - 1] == s[j]);
            }
        }
    }
}

/// A position that holds the separator, with none before it, is `first_index`.
pub proof fn lemma_first_index_is(s: Seq<u8>, sep: u8, k: int)
    requires
        0 <= k <= s.len(),
        forall|j: int| 0 <= j < k ==> s[j] != sep,
        k < s.len() ==> s[k] == sep,
    ensures
        first_index(s, sep) == k,
{
    lemma_first_index(s, sep);
}

/// Splitting gives at least one piece.
pub proof fn lemma_split_nonempty(s: Seq<u8>, sep: u8)
    ensures
        split(s, sep).len() >= 1,
{
}

/// The pieces with the separator between them.
pub open spec fn joined(pieces: Seq<Seq<u8>>, sep: u8) -> Seq<u8>
    decreases pieces.len(),
{
    if pieces.len() == 0 {
        Seq::empty()
    } else if pieces.len() == 1 {
        pieces[0]
    } else {
        pieces[0] + seq![sep] + joined(pieces.skip(1), sep)
    }
}

/// Splitting undoes joining: no piece holds the separator, and the pieces
/// with the separator between them are the text.
pub proof fn lemma_split_pieces(s: Seq<u8>, sep: u8)
    ensures
        forall|i: int|
            0 <= i < split(s, sep).len() ==> !(#[trigger] split(s, sep)[i]).contains(sep),
        joined(split(s, sep), sep) == s,
    decreases s.len(),
{
    lemma_first_index(s, sep);
    let k = first_index(s, sep);
    let out = split(s, sep);
    if k < s.len() {
        let rest = s.skip(k + 1);
        lemma_split_pieces(rest, sep);
        assert(out.skip(1) =~= split(rest, sep));
    }
}

/// Joining one more piece: the separator goes before it unless it is the
/// first.
pub proof fn lemma_joined_push(pieces: Seq<Seq<u8>>, piece: Seq<u8>, sep: u8)
    ensures
        joined(pieces.push(piece), sep) == if pieces.len() == 0 {
            piece
        } else {
            joined(pieces, sep) + seq![sep] + piece
        },
    decreases pieces.len(),
{
    let all = pieces.push(piece);
    if pieces.len() == 1 {
        assert(all.skip(1) =~= seq![piece]);
        assert(joined(seq![piece], sep) == piece);
    } else if pieces.len() > 1 {
        let rest = pieces.skip(1);
        lemma_joined_push(rest, piece, sep);
        assert(all.skip(1) =~= rest.push(piece));
    }
}

/// Joining undoes splitting: pieces that hold no separator, joined and split
/// again, are the same pieces.
pub proof fn lemma_split_of_joined(pieces: Seq<Seq<u8>>, sep: u8)
    requires
        pieces.len() >= 1,
        forall|i: int| 0 <= i < pieces.len() ==> !(#[trigger] pieces[i]).contains(sep),
    ensures
        split(joined(pieces, sep), sep) == pieces,
    decreases pieces.len(),
{
    if pieces.len() == 1 {
        lemma_split_whole(pieces[0], sep);
    } else {
        let rest = pieces.skip(1);
        lemma_split_of_joined(rest, sep);
        lemma_split_joined(pieces[0], joined(rest, sep), sep);
    }
}

/// A string without the separator is its own single piece.
pub proof fn lemma_split_whole(s: Seq<u8>, sep: u8)
    requires
        !s.contains(sep),
    ensures
        split(s, sep) == seq![s],
{
    lemma_first_index(s, sep);
}

/// Splitting `head ++ [sep] ++ tail`, where `head` is free of the separator,
/// gives `head` and then the pieces of `tail`.
pub proof fn lemma_split_joined(head: Seq<u8>, tail: Seq<u8>, sep: u8)
    requires
        !head.contains(sep),
    ensures
        split(head + seq![sep] + tail, sep) == seq![head] + split(tail, sep),
{
    let s = head + seq![sep] + tail;
    lemma_first_index_is(s, sep, head.len() as int);
    assert(s.take(head.len() as int) =~= head);
    assert(s.skip(head.len() as int + 1) =~= tail);
}

/// Splitting a text that goes on: the pieces of `x + y` are the pieces of `x`
/// but the last, and then the pieces of that last piece followed by `y`.
pub proof fn lemma_split_append(x: Seq<u8>, y: Seq<u8>, sep: u8)
    ensures
        split(x, sep).len() >= 1,
        split(x + y, sep) == split(x, sep).drop_last() + split(split(x, sep).last() + y, sep),
    decreases x.len(),
{
    lemma_first_index(x, sep);
    let k = first_index(x, sep);
    let s = x + y;
    if k < x.len() {
        lemma_first_index_is(s, sep, k);
        let rest = x.skip(k + 1);
        lemma_split_append(rest, y, sep);
        assert(s.take(k) =~= x.take(k));
        assert(s.skip(k + 1) =~= rest + y);
    }
}

/// Does `s` hold the byte `b`?
pub fn has_byte(s: &[u8], b: u8) -> (r: bool)
    ensures
        r == s@.contains(b),
{
    let mut i: usize = 0;
    while i < s.len()
        invariant
            i <= s.len(),
            forall|j: int| 0 <= j < i ==> s@[j] != b,
        decreases s.len() - i,
    {
        if s[i] == b {
            return true;
        }
        i += 1;
    }
    false
}

/// Are the two byte strings equal?
pub fn same_bytes(a: &[u8], b: &[u8]) -> (r: bool)
    ensures
        r == (a@ == b@),
{
    if a.len() != b.len() {
        return false;
    }
    let mut i: usize = 0;
    while i < a.len()
        invariant
            i <= a.len(),
            a.len() == b.len(),
            forall|j: int| 0 <= j < i ==> a@[j] == b@[j],
        decreases a.len() - i,
    {
        if a[i] != b[i] {
            return false;
        }
        i += 1;
    }
    assert(a@ =~= b@);
    true
}

/// A copy of the bytes from `from` up to `to`.
pub fn copy_range(s: &[u8], from: usize, to: usize) -> (r: Vec<u8>)
    requires
        from <= to <= s.len(),
    ensures
        r@ == s@.subrange(from as int, to as int),
{
    let mut out: Vec<u8> = Vec::new();
    let mut i: usize = from;
    while i < to
        invariant
            from <= i <= to <= s.len(),
            out@ == s@.subrange(from as int, i as int),
        decreases to - i,
    {
        out.push(s[i]);
        i += 1;
    }
    out
}

/// Appends all of `tail` to `out`.
pub fn append_bytes(out: &mut Vec<u8>, tail: &[u8])
    ensures
        final(out)@ == old(out)@ + tail@,
{
    let mut i: usize = 0;
    while i < tail.len()
        invariant
            i <= tail.len(),
            out@ == old(out)@ + tail@.take(i as int),
        decreases tail.len() - i,
    {
        out.push(tail[i]);
        i += 1;
    }
}

/// Cuts `data` at every `sep`. The separators themselves are dropped; the
/// result always holds at least one piece.
pub fn split_bytes(data: &[u8], sep: u8) -> (r: Vec<Vec<u8>>)
    ensures
        views(r@) == split(data@, sep),
        r@.len() >= 1,
{
    proof {
        lemma_split_nonempty(data@, sep);
    }
    let mut out: Vec<Vec<u8>> = Vec::new();
    let mut start: usize = 0;
    let mut i: usize = 0;
    proof {
        assert(data@.skip(0) =~= data@);
    }
    while i < data.len()
        invariant
            start <= i <= data.len(),
            forall|j: int| start <= j < i ==> data@[j] != sep,
            views(out@) + split(data@.skip(start as int), sep) == split(data@, sep),
        decreases data.len() - i,
    {
        if data[i] == sep {
            let piece = copy_range(data, start, i);
            proof {
                let rest = data@.skip(start as int);
                lemma_first_index_is(rest, sep, i - start);
                assert(rest.take(i - start) =~= piece@);
                assert(rest.skip(i - start + 1) =~= data@.skip(i + 1));
            }
            out.push(piece);
            start = i + 1;
        }
        i += 1;
    }
    let piece = copy_range(data, start, data.len());
    proof {
        let rest = data@.skip(start as int);
        lemma_first_index_is(rest, sep, rest.len() as int);
    }
    out.push(piece);
    out
}

} // verus!
