//! Paths as sequences of components, and the deepest directory that a set of
//! paths shares.
//!
//! A path is a byte string. Its components are what lies between the
//! separators, without empty pieces and without `.` pieces other than a
//! leading one; a leading separator is a component of its own, the root.
//! Two paths are the same when their components are, so `/a//b/` is `/a/b`.

use crate::text::{
    append_bytes, copy_range, first_index, joined, lemma_joined_push, lemma_split_joined,
    lemma_split_of_joined, lemma_split_pieces, same_bytes, split, split_bytes, views,
};
use vstd::prelude::*;

verus! {

/// The component separator, `/`.
pub const SEPARATOR: u8 = 0x2F;

/// The byte `.`.
pub const DOT: u8 = 0x2E;

/// The root component.
pub open spec fn root() -> Seq<u8> {
    seq![SEPARATOR]
}

/// The component that stands for the current directory.
pub open spec fn dot() -> Seq<u8> {
    seq![DOT]
}

/// Does the path start at the root?
pub open spec fn rooted(path: Seq<u8>) -> bool {
    path.len() > 0 && path[0] == SEPARATOR
}

/// A piece that counts as a component wherever it stands: not empty, not `.`.
pub open spec fn is_plain(piece: Seq<u8>) -> bool {
    piece.len() > 0 && piece != dot()
}

/// The plain pieces among `pieces`, in order.
pub open spec fn plain(pieces: Seq<Seq<u8>>) -> Seq<Seq<u8>>
    decreases pieces.len(),
{
    if pieces.len() == 0 {
        Seq::empty()
    } else if is_plain(pieces.last()) {
        plain(pieces.drop_last()).push(pieces.last())
    } else {
        plain(pieces.drop_last())
    }
}

/// The components of a path.
pub open spec fn components(path: Seq<u8>) -> Seq<Seq<u8>> {
    let pieces = split(path, SEPARATOR);
    if rooted(path) {
        seq![root()] + plain(pieces)
    } else if pieces.len() > 0 && pieces[0] == dot() {
        seq![dot()] + plain(pieces.skip(1))
    } else {
        plain(pieces)
    }
}

/// Two paths are the same path when they have the same components.
pub open spec fn same_path(a: Seq<u8>, b: Seq<u8>) -> bool {
    components(a) == components(b)
}

/// Does a path with components `whole` lie at or below one with components
/// `base`?
pub open spec fn starts_with(whole: Seq<Seq<u8>>, base: Seq<Seq<u8>>) -> bool {
    base.len() <= whole.len() && whole.take(base.len() as int) == base
}

/// Has a path with these components a parent? The empty path and the root
/// have none.
pub open spec fn has_parent(comps: Seq<Seq<u8>>) -> bool {
    comps.len() > 0 && comps.last() != root()
}

/// The number of leading components that `a` and `b` have in common.
pub open spec fn shared_len(a: Seq<Seq<u8>>, b: Seq<Seq<u8>>) -> nat
    decreases a.len(),
{
    if a.len() == 0 || b.len() == 0 || a[0] != b[0] {
        0
    } else {
        1 + shared_len(a.skip(1), b.skip(1))
    }
}

/// The number of leading components of `first` that every member of `rest`
/// has too.
pub open spec fn shared_by_all(first: Seq<Seq<u8>>, rest: Seq<Seq<Seq<u8>>>) -> nat
    decreases rest.len(),
{
    if rest.len() == 0 {
        first.len()
    } else {
        let before = shared_by_all(first, rest.drop_last());
        let here = shared_len(first, rest.last());
        if here < before {
            here
        } else {
            before
        }
    }
}

/// The components of each path.
pub open spec fn all_components(paths: Seq<Seq<u8>>) -> Seq<Seq<Seq<u8>>> {
    Seq::new(paths.len(), |i: int| components(paths[i]))
}

/// The components of the deepest directory that all the paths lie at or
/// below: the leading components that the first path shares with every
/// other.
///
/// Fewer than two paths share nothing, and neither do paths that share no
/// more than the root.
pub open spec fn common_components(paths: Seq<Seq<u8>>) -> Option<Seq<Seq<u8>>> {
    if paths.len() <= 1 {
        None
    } else {
        let first = components(paths[0]);
        let k = shared_by_all(first, all_components(paths.skip(1)));
        if has_parent(first.take(k as int)) {
            Some(first.take(k as int))
        } else {
            None
        }
    }
}

/// The path with the given components, in its shortest spelling: the root,
/// if it starts there, and then the components with separators between them.
pub open spec fn join(comps: Seq<Seq<u8>>) -> Seq<u8> {
    if comps.len() > 0 && comps[0] == root() {
        root() + joined(comps.skip(1), SEPARATOR)
    } else {
        joined(comps, SEPARATOR)
    }
}

/// The deepest directory that all the paths lie at or below, as a path.
pub open spec fn common_prefix_of(paths: Seq<Seq<u8>>) -> Option<Seq<u8>> {
    match common_components(paths) {
        Some(comps) => Some(join(comps)),
        None => None,
    }
}

/// `shared_len` is the length of the longest common prefix.
pub proof fn lemma_shared_len(a: Seq<Seq<u8>>, b: Seq<Seq<u8>>)
    ensures
        shared_len(a, b) <= a.len(),
        shared_len(a, b) <= b.len(),
        forall|i: int| 0 <= i < shared_len(a, b) ==> a[i] == b[i],
        shared_len(a, b) < a.len() && shared_len(a, b) < b.len() ==> a[shared_len(a, b) as int]
            != b[shared_len(a, b) as int],
    decreases a.len(),
{
    if a.len() > 0 && b.len() > 0 && a[0] == b[0] {
        let x = a.skip(1);
        let y = b.skip(1);
        lemma_shared_len(x, y);
        assert forall|i: int| 0 <= i < shared_len(a, b) implies a[i] == b[i] by {
            if i > 0 {
                assert(x[i - 1] == y[i - 1]);
            }
        }
    }
}

/// A length up to which `a` and `b` agree, and at which they end or differ,
/// is their `shared_len`.
pub proof fn lemma_shared_len_is(a: Seq<Seq<u8>>, b: Seq<Seq<u8>>, n: int)
    requires
        0 <= n <= a.len(),
        n <= b.len(),
        forall|i: int| 0 <= i < n ==> a[i] == b[i],
        n < a.len() && n < b.len() ==> a[n] != b[n],
    ensures
        shared_len(a, b) == n,
{
    lemma_shared_len(a, b);
}

/// The common components are a prefix of every path's components: each path
/// lies at or below the directory they name.
pub proof fn lemma_common_holds_all(paths: Seq<Seq<u8>>, i: int)
    requires
        common_components(paths) is Some,
        0 <= i < paths.len(),
    ensures
        starts_with(components(paths[i]), common_components(paths)->0),
{
    let first = components(paths[0]);
    let rest = all_components(paths.skip(1));
    let k = shared_by_all(first, rest);
    lemma_shared_bound(first, rest);
    if i > 0 {
        lemma_shared_member(first, rest, i - 1);
        lemma_shared_len(first, rest[i - 1]);
        assert(components(paths[i]).take(k as int) =~= first.take(k as int));
    }
}

/// No deeper directory holds all the paths: whatever every path lies at or
/// below, the directory they share lies at or below it too.
pub proof fn lemma_common_is_deepest(paths: Seq<Seq<u8>>, other: Seq<Seq<u8>>)
    requires
        common_components(paths) is Some,
        forall|i: int| 0 <= i < paths.len() ==> starts_with(components(#[trigger] paths[i]), other),
    ensures
        starts_with(common_components(paths)->0, other),
{
    let first = components(paths[0]);
    let rest = all_components(paths.skip(1));
    assert forall|i: int| 0 <= i < rest.len() implies other.len() <= shared_len(
        first,
        #[trigger] rest[i],
    ) by {
        lemma_shared_len(first, rest[i]);
        let n = shared_len(first, rest[i]) as int;
        if n < other.len() {
            assert(first.take(other.len() as int)[n] == other[n]);
        }
    }
    lemma_shared_at_least(first, rest, other.len());
    lemma_shared_bound(first, rest);
    let found = common_components(paths)->0;
    assert(found.take(other.len() as int) =~= first.take(other.len() as int));
}

/// What is shared with each, and by the first path itself, is shared by all.
pub proof fn lemma_shared_at_least(first: Seq<Seq<u8>>, rest: Seq<Seq<Seq<u8>>>, m: nat)
    requires
        m <= first.len(),
        forall|i: int| 0 <= i < rest.len() ==> m <= shared_len(first, #[trigger] rest[i]),
    ensures
        m <= shared_by_all(first, rest),
    decreases rest.len(),
{
    if rest.len() > 0 {
        let head = rest.drop_last();
        lemma_shared_at_least(first, head, m);
    }
}

/// No more components are shared by all than the first path has.
pub proof fn lemma_shared_bound(first: Seq<Seq<u8>>, rest: Seq<Seq<Seq<u8>>>)
    ensures
        shared_by_all(first, rest) <= first.len(),
    decreases rest.len(),
{
    if rest.len() > 0 {
        lemma_shared_bound(first, rest.drop_last());
    }
}

/// What is shared by all is shared with each.
pub proof fn lemma_shared_member(first: Seq<Seq<u8>>, rest: Seq<Seq<Seq<u8>>>, i: int)
    requires
        0 <= i < rest.len(),
    ensures
        shared_by_all(first, rest) <= shared_len(first, rest[i]),
    decreases rest.len(),
{
    if i < rest.len() - 1 {
        lemma_shared_member(first, rest.drop_last(), i);
    }
}

/// A piece that can be a component below the first: plain, and free of the
/// separator.
pub open spec fn is_name(piece: Seq<u8>) -> bool {
    is_plain(piece) && !piece.contains(SEPARATOR)
}

/// Can these be the components of a path? The first may be the root, `.` or a
/// name; all that follow are names.
pub open spec fn well_formed(comps: Seq<Seq<u8>>) -> bool {
    &&& forall|i: int| 1 <= i < comps.len() ==> is_name(#[trigger] comps[i])
    &&& comps.len() > 0 ==> comps[0] == root() || comps[0] == dot() || is_name(comps[0])
}

/// The plain pieces among pieces that hold no separator are names.
pub proof fn lemma_plain_names(pieces: Seq<Seq<u8>>)
    requires
        forall|i: int| 0 <= i < pieces.len() ==> !(#[trigger] pieces[i]).contains(SEPARATOR),
    ensures
        forall|k: int| 0 <= k < plain(pieces).len() ==> is_name(#[trigger] plain(pieces)[k]),
    decreases pieces.len(),
{
    if pieces.len() > 0 {
        let head = pieces.drop_last();
        assert forall|i: int| 0 <= i < head.len() implies !(#[trigger] head[i]).contains(
            SEPARATOR,
        ) by {
            assert(head[i] == pieces[i]);
        }
        lemma_plain_names(head);
        let out = plain(pieces);
        assert forall|k: int| 0 <= k < out.len() implies is_name(#[trigger] out[k]) by {
            if k < plain(head).len() {
                assert(out[k] == plain(head)[k]);
            } else {
                assert(out[k] == pieces[pieces.len() - 1]);
            }
        }
    }
}

/// Names that follow other pieces are all kept by `plain`.
pub proof fn lemma_plain_keeps_names(before: Seq<Seq<u8>>, names: Seq<Seq<u8>>)
    requires
        forall|i: int| 0 <= i < names.len() ==> is_name(#[trigger] names[i]),
    ensures
        plain(before + names) == plain(before) + names,
    decreases names.len(),
{
    if names.len() == 0 {
        assert(before + names =~= before);
        assert(plain(before) + names =~= plain(before));
    } else {
        let head = names.drop_last();
        assert forall|i: int| 0 <= i < head.len() implies is_name(#[trigger] head[i]) by {
            assert(head[i] == names[i]);
        }
        lemma_plain_keeps_names(before, head);
        let all = before + names;
        assert(all.drop_last() =~= before + head);
        assert(all.last() == names[names.len() - 1]);
        assert(plain(before) + names =~= (plain(before) + head).push(names.last()));
    }
}

/// The components of a path are well formed.
pub proof fn lemma_components_well_formed(path: Seq<u8>)
    ensures
        well_formed(components(path)),
{
    let pieces = split(path, SEPARATOR);
    lemma_split_pieces(path, SEPARATOR);
    if rooted(path) {
        lemma_plain_names(pieces);
    } else if pieces[0] == dot() {
        let rest = pieces.skip(1);
        lemma_plain_names(rest);
    } else {
        lemma_plain_names(pieces);
    }
}

/// Joining well-formed components gives a path that has them: `join` is a
/// right inverse of `components`.
pub proof fn lemma_components_of_join(comps: Seq<Seq<u8>>)
    requires
        well_formed(comps),
    ensures
        components(join(comps)) == comps,
{
    let none = Seq::<Seq<u8>>::empty();
    let blank = Seq::<u8>::empty();
    let text = join(comps);
    assert(first_index(blank, SEPARATOR) == 0);
    assert(split(blank, SEPARATOR) == seq![blank]);
    assert(plain(none) == none);
    assert(plain(seq![blank]) == none) by {
        assert(seq![blank].drop_last() =~= none);
    }
    if comps.len() == 0 {
        assert(text =~= blank);
        assert(components(text) =~= comps);
    } else if comps[0] == root() {
        let rest = comps.skip(1);
        assert forall|i: int| 0 <= i < rest.len() implies is_name(#[trigger] rest[i]) by {
            assert(rest[i] == comps[i + 1]);
        }
        assert(comps =~= seq![root()] + rest);
        if rest.len() == 0 {
            assert(text =~= root());
            assert(text =~= blank + seq![SEPARATOR] + blank);
            lemma_split_joined(blank, blank, SEPARATOR);
            assert(split(text, SEPARATOR) =~= seq![blank] + seq![blank]);
            lemma_plain_keeps_names(seq![blank] + seq![blank], none);
            assert(plain(seq![blank] + seq![blank]) == none) by {
                assert((seq![blank] + seq![blank]).drop_last() =~= seq![blank]);
            }
            assert(components(text) =~= comps);
        } else {
            lemma_split_of_joined(rest, SEPARATOR);
            let body = joined(rest, SEPARATOR);
            assert(text =~= blank + seq![SEPARATOR] + body);
            lemma_split_joined(blank, body, SEPARATOR);
            lemma_plain_keeps_names(seq![blank], rest);
            assert(plain(seq![blank] + rest) =~= rest);
            assert(components(text) =~= comps);
        }
    } else {
        let rest = comps.skip(1);
        assert forall|i: int| 0 <= i < rest.len() implies is_name(#[trigger] rest[i]) by {
            assert(rest[i] == comps[i + 1]);
        }
        assert(!comps[0].contains(SEPARATOR)) by {
            if comps[0] == dot() && comps[0].contains(SEPARATOR) {
                let j = choose|j: int| 0 <= j < comps[0].len() && comps[0][j] == SEPARATOR;
                assert(dot()[j] == DOT);
            }
        }
        assert(comps[0].len() > 0);
        lemma_split_of_joined(comps, SEPARATOR);
        assert(text[0] == comps[0][0]) by {
            if comps.len() > 1 {
                assert(text =~= comps[0] + seq![SEPARATOR] + joined(rest, SEPARATOR));
            }
        }
        assert(comps[0].contains(comps[0][0]));
        assert(!rooted(text));
        assert(comps =~= seq![comps[0]] + rest);
        if comps[0] == dot() {
            lemma_plain_keeps_names(none, rest);
            assert(none + rest =~= rest);
            assert(components(text) =~= comps);
        } else {
            lemma_plain_keeps_names(none, comps);
            assert(none + comps =~= comps);
            assert(components(text) =~= comps);
        }
    }
}

/// The spelling that `join` gives a path is the same path.
pub proof fn lemma_join_is_same_path(path: Seq<u8>)
    ensures
        same_path(join(components(path)), path),
{
    lemma_components_well_formed(path);
    lemma_components_of_join(components(path));
}

/// The parent has the components of the path but the last.
pub proof fn lemma_parent_components(path: Seq<u8>)
    requires
        parent_of(path) is Some,
    ensures
        components(parent_of(path)->0) == components(path).drop_last(),
{
    let comps = components(path);
    lemma_components_well_formed(path);
    let up = comps.drop_last();
    lemma_components_of_join(up);
}

/// The common prefix has the common components, so every path lies at or
/// below it.
pub proof fn lemma_common_prefix_components(paths: Seq<Seq<u8>>)
    requires
        common_prefix_of(paths) is Some,
    ensures
        components(common_prefix_of(paths)->0) == common_components(paths)->0,
        forall|i: int|
            0 <= i < paths.len() ==> starts_with(
                components(#[trigger] paths[i]),
                components(common_prefix_of(paths)->0),
            ),
{
    let first = components(paths[0]);
    let shared = common_components(paths)->0;
    lemma_components_well_formed(paths[0]);
    lemma_shared_bound(first, all_components(paths.skip(1)));
    lemma_components_of_join(shared);
    assert forall|i: int| 0 <= i < paths.len() implies starts_with(
        components(#[trigger] paths[i]),
        components(common_prefix_of(paths)->0),
    ) by {
        lemma_common_holds_all(paths, i);
    }
}

/// Splits a path into its components.
pub fn path_components(path: &[u8]) -> (r: Vec<Vec<u8>>)
    ensures
        views(r@) == components(path@),
{
    let pieces = split_bytes(path, SEPARATOR);
    let ghost all = split(path@, SEPARATOR);
    let mut out: Vec<Vec<u8>> = Vec::new();
    let mut i: usize = 0;
    let ghost lead: Seq<Seq<u8>> = Seq::empty();
    let ghost from: int = 0;
    if path.len() > 0 && path[0] == SEPARATOR {
        let mut mark: Vec<u8> = Vec::new();
        mark.push(SEPARATOR);
        out.push(mark);
        proof {
            lead = seq![root()];
        }
    } else if pieces.len() > 0 && is_dot(pieces[0].as_slice()) {
        let mut mark: Vec<u8> = Vec::new();
        mark.push(DOT);
        out.push(mark);
        i = 1;
        proof {
            lead = seq![dot()];
            from = 1;
        }
    }
    let ghost tail = all.skip(from);
    assert(all.skip(0) =~= all);
    while i < pieces.len()
        invariant
            0 <= from <= i <= pieces.len(),
            all.len() == pieces.len(),
            lead + plain(tail) == components(path@),
            views(pieces@) == all,
            tail == all.skip(from),
            views(out@) == lead + plain(tail.take(i - from)),
        decreases pieces.len() - i,
    {
        let piece = &pieces[i];
        let ghost next = tail.take(i - from + 1);
        assert(next.drop_last() =~= tail.take(i - from));
        if piece.len() > 0 && !is_dot(piece.as_slice()) {
            let copy = copy_range(piece.as_slice(), 0, piece.len());
            assert(copy@ =~= piece@);
            assert(views(out@.push(copy)) =~= views(out@).push(piece@));
            out.push(copy);
        }
        i += 1;
    }
    assert(tail.take(i - from) =~= tail);
    out
}

/// Is the piece exactly `.`?
fn is_dot(piece: &[u8]) -> (r: bool)
    ensures
        r == (piece@ == dot()),
{
    if piece.len() == 1 && piece[0] == DOT {
        assert(piece@ =~= dot());
        true
    } else {
        false
    }
}

/// Is the component the root?
fn is_root(piece: &[u8]) -> (r: bool)
    ensures
        r == (piece@ == root()),
{
    if piece.len() == 1 && piece[0] == SEPARATOR {
        assert(piece@ =~= root());
        true
    } else {
        false
    }
}

/// Are the two component lists equal?
pub fn same_components(a: &Vec<Vec<u8>>, b: &Vec<Vec<u8>>) -> (r: bool)
    ensures
        r == (views(a@) == views(b@)),
{
    if a.len() != b.len() {
        assert(views(a@).len() != views(b@).len());
        return false;
    }
    let mut i: usize = 0;
    while i < a.len()
        invariant
            i <= a.len(),
            a.len() == b.len(),
            forall|j: int| 0 <= j < i ==> a@[j]@ == b@[j]@,
        decreases a.len() - i,
    {
        if !same_bytes(a[i].as_slice(), b[i].as_slice()) {
            assert(views(a@)[i as int] != views(b@)[i as int]);
            return false;
        }
        i += 1;
    }
    assert(views(a@) =~= views(b@));
    true
}

/// Are the two paths the same path?
pub fn is_same_path(a: &[u8], b: &[u8]) -> (r: bool)
    ensures
        r == same_path(a@, b@),
{
    let x = path_components(a);
    let y = path_components(b);
    same_components(&x, &y)
}

/// How many leading components of `first`, among its first `limit`, does
/// `other` have too?
fn shared_prefix(first: &Vec<Vec<u8>>, other: &Vec<Vec<u8>>, limit: usize) -> (r: usize)
    requires
        limit <= first.len(),
    ensures
        r == if shared_len(views(first@), views(other@)) < limit {
            shared_len(views(first@), views(other@))
        } else {
            limit as nat
        },
{
    let ghost a = views(first@);
    let ghost b = views(other@);
    let mut j: usize = 0;
    while j < limit && j < other.len()
        invariant
            j <= limit <= first.len(),
            j <= other.len(),
            a == views(first@),
            b == views(other@),
            forall|i: int| 0 <= i < j ==> a[i] == b[i],
        decreases limit - j,
    {
        if !same_bytes(first[j].as_slice(), other[j].as_slice()) {
            proof {
                lemma_shared_len_is(a, b, j as int);
            }
            return j;
        }
        j += 1;
    }
    proof {
        lemma_shared_len(a, b);
    }
    j
}

/// The components of the deepest directory that all the paths lie at or
/// below.
pub fn shared_directory(paths: &Vec<Vec<u8>>) -> (r: Option<Vec<Vec<u8>>>)
    ensures
        match r {
            Some(comps) => common_components(views(paths@)) == Some(views(comps@)),
            None => common_components(views(paths@)) is None,
        },
{
    if paths.len() <= 1 {
        return None;
    }
    let ghost all = views(paths@);
    let ghost rest = all_components(all.skip(1));
    let mut first = path_components(paths[0].as_slice());
    let ghost whole = views(first@);
    let mut k: usize = first.len();
    let mut i: usize = 1;
    while i < paths.len()
        invariant
            1 <= i <= paths.len(),
            all == views(paths@),
            rest == all_components(all.skip(1)),
            whole == views(first@),
            whole == components(all[0]),
            k <= first.len(),
            k == shared_by_all(whole, rest.take(i - 1)),
        decreases paths.len() - i,
    {
        let other = path_components(paths[i].as_slice());
        proof {
            let next = rest.take(i as int);
            assert(next.drop_last() =~= rest.take(i - 1));
        }
        k = shared_prefix(&first, &other, k);
        i += 1;
    }
    assert(rest.take(i - 1) =~= rest);
    first.truncate(k);
    if k == 0 {
        return None;
    }
    if is_root(first[k - 1].as_slice()) {
        return None;
    }
    Some(first)
}

/// Spells out the path with the given components.
pub fn join_components(comps: &Vec<Vec<u8>>) -> (r: Vec<u8>)
    ensures
        r@ == join(views(comps@)),
{
    let ghost all = views(comps@);
    let mut out: Vec<u8> = Vec::new();
    let mut i: usize = 0;
    if comps.len() > 0 && is_root(comps[0].as_slice()) {
        out.push(SEPARATOR);
        i = 1;
    }
    assert(comps.len() > 0 ==> all[0] == comps@[0]@);
    let from = i;
    let ghost lead = out@;
    let ghost tail = all.skip(from as int);
    assert(lead =~= if from == 1 { root() } else { Seq::<u8>::empty() });
    assert(tail.take(0) =~= Seq::<Seq<u8>>::empty());
    assert(out@ =~= lead + joined(tail.take(0), SEPARATOR));
    while i < comps.len()
        invariant
            from <= i <= comps.len(),
            all == views(comps@),
            tail == all.skip(from as int),
            out@ == lead + joined(tail.take(i - from), SEPARATOR),
        decreases comps.len() - i,
    {
        let piece = &comps[i];
        let ghost before = tail.take(i - from);
        assert(tail.take(i - from + 1) =~= before.push(piece@)) by {
            assert(tail[i - from] == all[i as int]);
            assert(all[i as int] == piece@);
        }
        proof {
            lemma_joined_push(before, piece@, SEPARATOR);
        }
        if i > from {
            out.push(SEPARATOR);
        }
        append_bytes(&mut out, piece.as_slice());
        assert(out@ =~= lead + joined(before.push(piece@), SEPARATOR));
        i += 1;
    }
    assert(tail.take(i - from) =~= tail);
    assert(all.skip(0) =~= all);
    out
}

/// The path one level up, in its shortest spelling; the empty path and the
/// root have none.
pub open spec fn parent_of(path: Seq<u8>) -> Option<Seq<u8>> {
    let comps = components(path);
    if has_parent(comps) {
        Some(join(comps.drop_last()))
    } else {
        None
    }
}

/// The path one level up.
pub fn parent(path: &[u8]) -> (r: Option<Vec<u8>>)
    ensures
        match r {
            Some(up) => parent_of(path@) == Some(up@),
            None => parent_of(path@) is None,
        },
{
    let mut comps = path_components(path);
    let n = comps.len();
    if n == 0 {
        return None;
    }
    if is_root(comps[n - 1].as_slice()) {
        return None;
    }
    let ghost whole = views(comps@);
    comps.truncate(n - 1);
    assert(views(comps@) =~= whole.drop_last());
    Some(join_components(&comps))
}

/// Shortens the path by its last component. Returns `false`, and leaves the
/// path as it is, where it has no parent.
pub fn pop(path: &mut Vec<u8>) -> (r: bool)
    ensures
        r == parent_of(old(path)@) is Some,
        r ==> parent_of(old(path)@) == Some(final(path)@),
        !r ==> final(path)@ == old(path)@,
{
    match parent(path.as_slice()) {
        Some(up) => {
            *path = up;
            true
        },
        None => false,
    }
}

/// The deepest directory that all the paths lie at or below, if they share
/// one below the root.
pub fn common_prefix(paths: &Vec<Vec<u8>>) -> (r: Option<Vec<u8>>)
    ensures
        match r {
            Some(path) => common_prefix_of(views(paths@)) == Some(path@),
            None => common_prefix_of(views(paths@)) is None,
        },
{
    match shared_directory(paths) {
        Some(comps) => Some(join_components(&comps)),
        None => None,
    }
}

} // verus!
