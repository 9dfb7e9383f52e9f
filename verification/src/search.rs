//! Search: which entries a pattern selects, and in what order they come.
//!
//! The pattern is a regular expression. It is tried as written first, and
//! without regard to case only where that selects nothing. The entries
//! selected are scored, the one that is the directory they all share is
//! boosted, and the result is ordered by score, ascending.

use crate::codec::{row_views, Row, RowView};
use crate::paths::{
    common_components, components, path_components, same_components, shared_directory,
};
use crate::score::{
    ascending, is_ascending, lemma_ascending, scored_views, sort_scored, NonFinite, ScoredRow,
    ScoredView, Scorer,
};
use crate::single::{Single, NAN_BITS};
use crate::text::{copy_range, views};
use vstd::prelude::*;

verus! {

/// `regex::Regex`, a compiled regular expression. Nothing of its inside is
/// known here.
#[verifier::external_type_specification]
#[verifier::external_body]
pub struct ExRegex(regex::Regex);

/// `regex::Error`, why a pattern did not compile. Nothing of its inside is
/// known here.
#[verifier::external_type_specification]
#[verifier::external_body]
pub struct ExRegexError(regex::Error);

/// The regular expression that `expr` compiles to, with or without regard to
/// case, or `None` where it does not compile.
pub uninterp spec fn regex_compiled(expr: Seq<char>, fold_case: bool) -> Option<regex::Regex>;

/// Does the regular expression match somewhere in the text that the bytes
/// spell? Bytes that are not well-formed UTF-8 count as U+FFFD.
pub uninterp spec fn regex_accepts(re: regex::Regex, path: Seq<u8>) -> bool;

/// Compiles a pattern with `regex::RegexBuilder`: `new`, `case_insensitive`
/// and `build`, all other settings at their defaults. Whether a pattern
/// compiles, and to what, depends on the pattern and the flag alone.
#[verifier::external_body]
fn compile(expr: &str, fold_case: bool) -> (r: Result<regex::Regex, regex::Error>)
    ensures
        match r {
            Ok(re) => regex_compiled(expr@, fold_case) == Some(re),
            Err(_) => regex_compiled(expr@, fold_case) is None,
        },
{
    regex::RegexBuilder::new(expr).case_insensitive(fold_case).build()
}

/// Tests a path against a compiled pattern with `regex::Regex::is_match`,
/// which says whether there is a match anywhere in the text. The bytes are
/// read as UTF-8, ill-formed parts as U+FFFD.
#[verifier::external_body]
fn is_match(re: &regex::Regex, path: &[u8]) -> (r: bool)
    ensures
        r == regex_accepts(*re, path@),
{
    re.is_match(&String::from_utf8_lossy(path))
}

/// The message of a `regex::Error`, as its `Display` gives it. Nothing is
/// claimed of the text.
#[verifier::external_body]
fn describe(error: &regex::Error) -> String {
    error.to_string()
}

/// Why a search gave no result.
#[derive(Debug, PartialEq, Eq)]
pub enum SearchError {
    /// The pattern is no regular expression.
    InvalidRegex { message: String },
    /// The entry at `path` was selected and has a score that is not finite.
    NonFiniteScore { path: Vec<u8> },
}

/// The mathematical value of a `SearchError`, without the message.
pub enum Failure {
    InvalidRegex,
    NonFiniteScore(Seq<u8>),
}

impl View for SearchError {
    type V = Failure;

    open spec fn view(&self) -> Failure {
        match self {
            SearchError::InvalidRegex { message } => Failure::InvalidRegex,
            SearchError::NonFiniteScore { path } => Failure::NonFiniteScore(path@),
        }
    }
}

/// What the caller's arithmetic gave for one entry: the value of its
/// formula, and one hundred times its score.
#[derive(Clone, Copy, Debug, PartialEq, Eq, Structural)]
pub struct Computed {
    pub value: Single,
    pub boosted: Single,
}

/// The computed values of entry `i`; past the end of `computed` both are
/// NaN.
pub open spec fn computed_at(computed: Seq<Computed>, i: int) -> Computed {
    if 0 <= i < computed.len() {
        computed[i]
    } else {
        Computed { value: Single { bits: NAN_BITS }, boosted: Single { bits: NAN_BITS } }
    }
}

/// The indices at which `verdicts` holds, ascending.
pub open spec fn hits_of(verdicts: Seq<bool>) -> Seq<int>
    decreases verdicts.len(),
{
    if verdicts.len() == 0 {
        Seq::empty()
    } else if verdicts.last() {
        hits_of(verdicts.drop_last()).push(verdicts.len() - 1)
    } else {
        hits_of(verdicts.drop_last())
    }
}

/// The indices as mathematical integers.
pub open spec fn as_ints(hits: Seq<usize>) -> Seq<int> {
    Seq::new(hits.len(), |k: int| hits[k] as int)
}

/// Whether the pattern matches each entry's path.
pub open spec fn verdicts(table: Seq<RowView>, re: regex::Regex) -> Seq<bool> {
    Seq::new(table.len(), |i: int| regex_accepts(re, table[i].path))
}

/// The entries that a pattern selects, by index: those it matches as
/// written, or, where there are none, those it matches without regard to
/// case. `None` where the pattern does not compile.
pub open spec fn found(table: Seq<RowView>, expr: Seq<char>) -> Option<Seq<int>> {
    match regex_compiled(expr, false) {
        None => None,
        Some(exact) => {
            let hits = hits_of(verdicts(table, exact));
            if hits.len() > 0 {
                Some(hits)
            } else {
                match regex_compiled(expr, true) {
                    None => None,
                    Some(loose) => Some(hits_of(verdicts(table, loose))),
                }
            }
        },
    }
}

/// The hits are indices into the verdicts, in ascending order.
pub proof fn lemma_hits(verdicts: Seq<bool>)
    ensures
        hits_of(verdicts).len() <= verdicts.len(),
        forall|k: int|
            0 <= k < hits_of(verdicts).len() ==> 0 <= #[trigger] hits_of(verdicts)[k]
                < verdicts.len() && verdicts[hits_of(verdicts)[k]],
        forall|k: int, l: int|
            0 <= k < l < hits_of(verdicts).len() ==> hits_of(verdicts)[k] < hits_of(verdicts)[l],
        forall|i: int|
            0 <= i < verdicts.len() && verdicts[i] ==> hits_of(verdicts).contains(i),
    decreases verdicts.len(),
{
    if verdicts.len() > 0 {
        let head = verdicts.drop_last();
        lemma_hits(head);
        let out = hits_of(verdicts);
        assert forall|i: int| 0 <= i < verdicts.len() && verdicts[i] implies out.contains(i) by {
            if i < head.len() {
                assert(head[i]);
                let k = choose|k: int| 0 <= k < hits_of(head).len() && hits_of(head)[k] == i;
                assert(out[k] == i);
            } else {
                assert(out[out.len() - 1] == i);
            }
        }
    }
}

/// Tests every entry's path against a compiled pattern.
fn matching(table: &Vec<Row>, re: &regex::Regex) -> (r: Vec<bool>)
    ensures
        r@ == verdicts(row_views(table@), *re),
{
    let ghost all = verdicts(row_views(table@), *re);
    let mut out: Vec<bool> = Vec::new();
    let mut i: usize = 0;
    while i < table.len()
        invariant
            i <= table.len(),
            all == verdicts(row_views(table@), *re),
            out@ == all.take(i as int),
        decreases table.len() - i,
    {
        let hit = is_match(re, table[i].path.as_slice());
        out.push(hit);
        i += 1;
    }
    out
}

/// The indices at which `verdicts` holds, ascending.
pub fn hits(verdicts: &Vec<bool>) -> (r: Vec<usize>)
    ensures
        as_ints(r@) == hits_of(verdicts@),
        forall|k: int| 0 <= k < r@.len() ==> r@[k] < verdicts@.len(),
{
    let mut out: Vec<usize> = Vec::new();
    let mut i: usize = 0;
    while i < verdicts.len()
        invariant
            i <= verdicts.len(),
            as_ints(out@) == hits_of(verdicts@.take(i as int)),
            forall|k: int| 0 <= k < out@.len() ==> out@[k] < i,
        decreases verdicts.len() - i,
    {
        let ghost next = verdicts@.take(i + 1);
        assert(next.drop_last() =~= verdicts@.take(i as int));
        if verdicts[i] {
            out.push(i);
        }
        i += 1;
    }
    assert(verdicts@.take(i as int) =~= verdicts@);
    out
}

/// Selects entries by pattern: those that the pattern matches as written,
/// or, where there are none, those it matches without regard to case. The
/// result holds their indices, ascending.
pub fn find_matches(table: &Vec<Row>, expr: &str) -> (r: Result<Vec<usize>, SearchError>)
    ensures
        match r {
            Ok(found_at) => found(row_views(table@), expr@) == Some(as_ints(found_at@))
                && forall|k: int| 0 <= k < found_at@.len() ==> found_at@[k] < table.len(),
            Err(e) => found(row_views(table@), expr@) is None && e@ == Failure::InvalidRegex,
        },
{
    let exact = match compile(expr, false) {
        Ok(re) => re,
        Err(error) => {
            return Err(SearchError::InvalidRegex { message: describe(&error) });
        },
    };
    let as_written = hits(&matching(table, &exact));
    if as_written.len() > 0 {
        return Ok(as_written);
    }
    let loose = match compile(expr, true) {
        Ok(re) => re,
        Err(error) => {
            return Err(SearchError::InvalidRegex { message: describe(&error) });
        },
    };
    Ok(hits(&matching(table, &loose)))
}

/// The score of entry `i` under the policy.
pub open spec fn score_at(
    mode: Scorer,
    rows: Seq<RowView>,
    computed: Seq<Computed>,
    i: int,
) -> Single {
    mode.score_of(rows[i].rank, computed_at(computed, i).value)
}

/// Every entry with its score, or the path of the first entry whose score is
/// not finite.
pub open spec fn scored_all(mode: Scorer, rows: Seq<RowView>, computed: Seq<Computed>) -> Result<
    Seq<ScoredView>,
    Seq<u8>,
>
    decreases rows.len(),
{
    if rows.len() == 0 {
        Ok(Seq::empty())
    } else {
        match scored_all(mode, rows.drop_last(), computed) {
            Err(path) => Err(path),
            Ok(before) => {
                let score = score_at(mode, rows, computed, rows.len() - 1);
                if score.finite() {
                    Ok(before.push(ScoredView { path: rows.last().path, score }))
                } else {
                    Err(rows.last().path)
                }
            },
        }
    }
}

/// The index of the first row whose path has the components `target`.
pub open spec fn first_with(scored: Seq<ScoredView>, target: Seq<Seq<u8>>) -> Option<int>
    decreases scored.len(),
{
    if scored.len() == 0 {
        None
    } else {
        match first_with(scored.drop_last(), target) {
            Some(i) => Some(i),
            None => if components(scored.last().path) == target {
                Some(scored.len() - 1)
            } else {
                None
            },
        }
    }
}

/// The paths of the rows.
pub open spec fn paths_of(scored: Seq<ScoredView>) -> Seq<Seq<u8>> {
    Seq::new(scored.len(), |i: int| scored[i].path)
}

/// The row to boost: the first row that is the directory which all the rows
/// share, if they share one and it is among them.
pub open spec fn boost_target(scored: Seq<ScoredView>) -> Option<int> {
    match common_components(paths_of(scored)) {
        None => None,
        Some(shared) => first_with(scored, shared),
    }
}

/// The rows after the boost: the target, if there is one, takes the boosted
/// score computed for it. A boosted score that is not finite is refused
/// with the row's path.
pub open spec fn boosted(scored: Seq<ScoredView>, computed: Seq<Computed>) -> Result<
    Seq<ScoredView>,
    Seq<u8>,
> {
    match boost_target(scored) {
        None => Ok(scored),
        Some(j) => {
            let score = computed_at(computed, j).boosted;
            if score.finite() {
                Ok(scored.update(j, ScoredView { path: scored[j].path, score }))
            } else {
                Err(scored[j].path)
            }
        },
    }
}

/// The result for the selected entries: scored, boosted and in ascending
/// order of score, or the path of the entry whose score is not finite.
pub open spec fn ranked(mode: Scorer, rows: Seq<RowView>, computed: Seq<Computed>) -> Result<
    Seq<ScoredView>,
    Seq<u8>,
> {
    match scored_all(mode, rows, computed) {
        Err(path) => Err(path),
        Ok(scored) => match boosted(scored, computed) {
            Err(path) => Err(path),
            Ok(lifted) => Ok(ascending(lifted)),
        },
    }
}

/// Scoring keeps every entry's path, and every score that it gives is finite.
pub proof fn lemma_scored_all(mode: Scorer, rows: Seq<RowView>, computed: Seq<Computed>)
    requires
        scored_all(mode, rows, computed) is Ok,
    ensures
        scored_all(mode, rows, computed)->Ok_0.len() == rows.len(),
        forall|i: int|
            0 <= i < rows.len() ==> {
                let row = #[trigger] scored_all(mode, rows, computed)->Ok_0[i];
                row.path == rows[i].path && row.score == score_at(mode, rows, computed, i)
                    && row.score.finite()
            },
    decreases rows.len(),
{
    if rows.len() > 0 {
        let head = rows.drop_last();
        lemma_scored_all(mode, head, computed);
    }
}

/// What a search gives holds one row for each entry selected, in ascending
/// order of score, and every score in it is finite. Its paths are the paths
/// of the entries selected: none is made up and none is lost.
pub proof fn lemma_ranked(mode: Scorer, rows: Seq<RowView>, computed: Seq<Computed>)
    requires
        ranked(mode, rows, computed) is Ok,
    ensures
        ranked(mode, rows, computed)->Ok_0.len() == rows.len(),
        is_ascending(ranked(mode, rows, computed)->Ok_0),
        forall|i: int|
            0 <= i < rows.len() ==> (#[trigger] ranked(
                mode,
                rows,
                computed,
            )->Ok_0[i]).score.finite(),
        forall|i: int|
            0 <= i < rows.len() ==> exists|j: int|
                0 <= j < rows.len() && rows[j].path == (#[trigger] ranked(
                    mode,
                    rows,
                    computed,
                )->Ok_0[i]).path,
        forall|j: int|
            0 <= j < rows.len() ==> exists|i: int|
                0 <= i < rows.len() && ranked(mode, rows, computed)->Ok_0[i].path == (
                #[trigger] rows[j]).path,
{
    broadcast use vstd::seq_lib::to_multiset_contains;

    let scored = scored_all(mode, rows, computed)->Ok_0;
    lemma_scored_all(mode, rows, computed);
    let lifted = boosted(scored, computed)->Ok_0;
    let out = ascending(lifted);
    lemma_ascending(lifted);
    match boost_target(scored) {
        Some(j) => {
            lemma_first_with(scored, common_components(paths_of(scored))->0);
        },
        None => {},
    }
    assert forall|i: int| 0 <= i < rows.len() implies (#[trigger] out[i]).score.finite()
        && exists|j: int| 0 <= j < rows.len() && rows[j].path == out[i].path by {
        assert(out.to_multiset().count(out[i]) > 0);
    }
    assert forall|j: int| 0 <= j < rows.len() implies exists|i: int|
        0 <= i < rows.len() && out[i].path == (#[trigger] rows[j]).path by {
        assert(lifted[j].path == rows[j].path);
        assert(lifted.to_multiset().count(lifted[j]) > 0);
        assert(out.contains(lifted[j]));
        let i = choose|i: int| 0 <= i < out.len() && out[i] == lifted[j];
        assert(out[i].path == rows[j].path);
    }
}

/// `first_with` is the first index whose path has the components, and it is
/// `None` only where no row has them.
pub proof fn lemma_first_with(scored: Seq<ScoredView>, target: Seq<Seq<u8>>)
    ensures
        match first_with(scored, target) {
            Some(i) => 0 <= i < scored.len() && components(scored[i].path) == target && forall|
                j: int,
            | 0 <= j < i ==> components(#[trigger] scored[j].path) != target,
            None => forall|j: int|
                0 <= j < scored.len() ==> components(#[trigger] scored[j].path) != target,
        },
    decreases scored.len(),
{
    if scored.len() > 0 {
        let head = scored.drop_last();
        lemma_first_with(head, target);
        match first_with(head, target) {
            Some(i) => {
                assert forall|j: int| 0 <= j < i implies components(#[trigger] scored[j].path)
                    != target by {
                    assert(head[j] == scored[j]);
                }
            },
            None => {
                assert forall|j: int| 0 <= j < scored.len() - 1 implies components(
                    #[trigger] scored[j].path,
                ) != target by {
                    assert(head[j] == scored[j]);
                }
            },
        }
    }
}

/// Scores every selected entry, in order.
fn score_rows(mode: Scorer, rows: &Vec<Row>, computed: &Vec<Computed>) -> (r: Result<
    Vec<ScoredRow>,
    NonFinite,
>)
    ensures
        match r {
            Ok(scored) => scored_all(mode, row_views(rows@), computed@) == Ok::<
                Seq<ScoredView>,
                Seq<u8>,
            >(scored_views(scored@)) && scored@.len() == rows@.len(),
            Err(e) => scored_all(mode, row_views(rows@), computed@) == Err::<
                Seq<ScoredView>,
                Seq<u8>,
            >(e.path@),
        },
{
    let ghost all = row_views(rows@);
    let mut out: Vec<ScoredRow> = Vec::new();
    let mut i: usize = 0;
    assert(scored_views(out@) =~= Seq::<ScoredView>::empty());
    while i < rows.len()
        invariant
            i <= rows.len(),
            all == row_views(rows@),
            out@.len() == i,
            scored_all(mode, all.take(i as int), computed@) == Ok::<Seq<ScoredView>, Seq<u8>>(
                scored_views(out@),
            ),
        decreases rows.len() - i,
    {
        let value = value_at(computed, i);
        let ghost next = all.take(i + 1);
        assert(next.drop_last() =~= all.take(i as int));
        match mode.scored(&rows[i], value) {
            Ok(row) => {
                assert(scored_views(out@.push(row)) =~= scored_views(out@).push(row@));
                out.push(row);
            },
            Err(e) => {
                proof {
                    lemma_scored_prefix(mode, all, computed@, i + 1);
                }
                return Err(e);
            },
        }
        i += 1;
    }
    assert(all.take(i as int) =~= all);
    Ok(out)
}

/// Once a prefix of the entries holds a score that is not finite, scoring
/// them all stops at the same entry.
proof fn lemma_scored_prefix(mode: Scorer, rows: Seq<RowView>, computed: Seq<Computed>, n: int)
    requires
        0 <= n <= rows.len(),
        scored_all(mode, rows.take(n), computed) is Err,
    ensures
        scored_all(mode, rows, computed) == scored_all(mode, rows.take(n), computed),
    decreases rows.len() - n,
{
    if n < rows.len() {
        let next = rows.take(n + 1);
        assert(next.drop_last() =~= rows.take(n));
        lemma_scored_prefix(mode, rows, computed, n + 1);
    } else {
        assert(rows.take(n) =~= rows);
    }
}

/// The value computed for entry `i`, or NaN past the end.
fn value_at(computed: &Vec<Computed>, i: usize) -> (r: Single)
    ensures
        r == computed_at(computed@, i as int).value,
{
    if i < computed.len() {
        computed[i].value
    } else {
        Single::not_a_number()
    }
}

/// The boosted score computed for entry `i`, or NaN past the end.
fn boosted_at(computed: &Vec<Computed>, i: usize) -> (r: Single)
    ensures
        r == computed_at(computed@, i as int).boosted,
{
    if i < computed.len() {
        computed[i].boosted
    } else {
        Single::not_a_number()
    }
}

/// Finds the row to boost.
pub fn find_boost_target(scored: &Vec<ScoredRow>) -> (r: Option<usize>)
    ensures
        match r {
            Some(j) => boost_target(scored_views(scored@)) == Some(j as int) && j < scored@.len(),
            None => boost_target(scored_views(scored@)) is None,
        },
{
    let ghost all = scored_views(scored@);
    let mut paths: Vec<Vec<u8>> = Vec::new();
    let mut i: usize = 0;
    while i < scored.len()
        invariant
            i <= scored.len(),
            paths@.len() == i,
            forall|j: int| 0 <= j < i ==> (#[trigger] paths@[j])@ == scored@[j].path@,
        decreases scored.len() - i,
    {
        let path = copy_range(scored[i].path.as_slice(), 0, scored[i].path.len());
        assert(path@ =~= scored@[i as int].path@);
        paths.push(path);
        i += 1;
    }
    assert(views(paths@) =~= paths_of(all));
    let shared = match shared_directory(&paths) {
        Some(shared) => shared,
        None => {
            return None;
        },
    };
    let ghost target = views(shared@);
    let mut j: usize = 0;
    proof {
        lemma_first_with(all, target);
    }
    while j < scored.len()
        invariant
            j <= scored.len(),
            all == scored_views(scored@),
            target == views(shared@),
            common_components(paths_of(all)) == Some(target),
            forall|k: int| 0 <= k < j ==> components(#[trigger] all[k].path) != target,
        decreases scored.len() - j,
    {
        let comps = path_components(scored[j].path.as_slice());
        assert(all[j as int] == scored@[j as int]@);
        if same_components(&comps, &shared) {
            proof {
                lemma_first_with(all, target);
                match first_with(all, target) {
                    Some(k) => {
                        if k < j {
                            assert(components(all[k].path) != target);
                        } else if k > j {
                            assert(components(all[j as int].path) != target);
                        }
                    },
                    None => {
                        assert(components(all[j as int].path) != target);
                    },
                }
            }
            return Some(j);
        }
        j += 1;
    }
    proof {
        lemma_first_with(all, target);
        if first_with(all, target) is Some {
            let k = first_with(all, target)->0;
            assert(components(all[k].path) != target);
        }
    }
    None
}

/// Scores the selected entries, boosts the one that is the directory they
/// all share, and orders them by score, ascending. `computed[i]` holds what
/// the caller's arithmetic gave for `rows[i]`; an entry without one counts as
/// not finite.
pub fn rank_matches(mode: Scorer, rows: &Vec<Row>, computed: &Vec<Computed>) -> (r: Result<
    Vec<ScoredRow>,
    NonFinite,
>)
    ensures
        match r {
            Ok(scored) => ranked(mode, row_views(rows@), computed@) == Ok::<
                Seq<ScoredView>,
                Seq<u8>,
            >(scored_views(scored@)),
            Err(e) => ranked(mode, row_views(rows@), computed@) == Err::<Seq<ScoredView>, Seq<u8>>(
                e.path@,
            ),
        },
        r is Ok ==> r->Ok_0@.len() == rows@.len() && is_ascending(scored_views(r->Ok_0@)),
        r is Ok ==> forall|i: int|
            0 <= i < r->Ok_0@.len() ==> (#[trigger] r->Ok_0@[i]).score.finite(),
{
    proof {
        if ranked(mode, row_views(rows@), computed@) is Ok {
            lemma_ranked(mode, row_views(rows@), computed@);
        }
    }
    let mut scored = match score_rows(mode, rows, computed) {
        Ok(scored) => scored,
        Err(e) => {
            return Err(e);
        },
    };
    let ghost plain = scored_views(scored@);
    match find_boost_target(&scored) {
        Some(j) => {
            let score = boosted_at(computed, j);
            let path = copy_range(scored[j].path.as_slice(), 0, scored[j].path.len());
            assert(path@ =~= scored@[j as int].path@);
            if !score.is_finite() {
                return Err(NonFinite { path });
            }
            scored[j] = ScoredRow { path, score };
            assert(scored_views(scored@) =~= plain.update(
                j as int,
                ScoredView { path: plain[j as int].path, score },
            ));
        },
        None => {},
    }
    let sorted = sort_scored(&scored);
    assert forall|i: int| 0 <= i < sorted@.len() implies (#[trigger] sorted@[i]).score.finite() by {
        assert(scored_views(sorted@)[i] == sorted@[i]@);
    }
    Ok(sorted)
}

/// The rows at the given indices.
pub open spec fn rows_at(table: Seq<RowView>, hits: Seq<int>) -> Seq<RowView> {
    Seq::new(hits.len(), |k: int| table[hits[k]])
}

/// The computed values at the given indices.
pub open spec fn computed_for(computed: Seq<Computed>, hits: Seq<int>) -> Seq<Computed> {
    Seq::new(hits.len(), |k: int| computed_at(computed, hits[k]))
}

/// What a search gives: the entries that the pattern selects, scored,
/// boosted and ordered.
pub open spec fn search_of(
    table: Seq<RowView>,
    expr: Seq<char>,
    mode: Scorer,
    computed: Seq<Computed>,
) -> Result<Seq<ScoredView>, Failure> {
    match found(table, expr) {
        None => Err(Failure::InvalidRegex),
        Some(hits) => match ranked(mode, rows_at(table, hits), computed_for(computed, hits)) {
            Ok(scored) => Ok(scored),
            Err(path) => Err(Failure::NonFiniteScore(path)),
        },
    }
}

/// Searches the table. `computed[i]` holds what the caller's arithmetic gave
/// for `table[i]`: the value of `mode.formula(&table[i])`, and one hundred
/// times the entry's score. The best match comes last.
pub fn search(table: &Vec<Row>, expr: &str, mode: Scorer, computed: &Vec<Computed>) -> (r: Result<
    Vec<ScoredRow>,
    SearchError,
>)
    ensures
        match r {
            Ok(scored) => search_of(row_views(table@), expr@, mode, computed@) == Ok::<
                Seq<ScoredView>,
                Failure,
            >(scored_views(scored@)),
            Err(e) => search_of(row_views(table@), expr@, mode, computed@) == Err::<
                Seq<ScoredView>,
                Failure,
            >(e@),
        },
        r is Ok ==> is_ascending(scored_views(r->Ok_0@)),
        r is Ok ==> forall|i: int|
            0 <= i < r->Ok_0@.len() ==> (#[trigger] r->Ok_0@[i]).score.finite(),
{
    let hits = match find_matches(table, expr) {
        Ok(hits) => hits,
        Err(e) => {
            return Err(e);
        },
    };
    let ghost all = row_views(table@);
    let ghost at = as_ints(hits@);
    let mut rows: Vec<Row> = Vec::new();
    let mut values: Vec<Computed> = Vec::new();
    let mut k: usize = 0;
    while k < hits.len()
        invariant
            k <= hits.len(),
            all == row_views(table@),
            at == as_ints(hits@),
            forall|l: int| 0 <= l < hits@.len() ==> hits@[l] < table.len(),
            rows@.len() == k,
            values@.len() == k,
            forall|l: int| 0 <= l < k ==> (#[trigger] rows@[l])@ == all[at[l]],
            forall|l: int| 0 <= l < k ==> #[trigger] values@[l] == computed_at(computed@, at[l]),
        decreases hits.len() - k,
    {
        let i = hits[k];
        rows.push(table[i].clone());
        let value = Computed { value: value_at(computed, i), boosted: boosted_at(computed, i) };
        values.push(value);
        k += 1;
    }
    assert(row_views(rows@) =~= rows_at(all, at));
    assert(values@ =~= computed_for(computed@, at));
    match rank_matches(mode, &rows, &values) {
        Ok(scored) => Ok(scored),
        Err(e) => Err(SearchError::NonFiniteScore { path: e.path }),
    }
}

} // verus!
